//! A description of how a range scan would proceed.
use vstd::prelude::*;
use crate::text::{decimal_digits, push_decimal, spec_utf8_lossy, utf8_lossy};
use crate::memtable::copy_bytes;

verus! {

/// A rough cost class.
#[derive(Clone, Debug, PartialEq, Eq)]
pub enum CostLevel {
    Low,
    Medium,
    High,
}

/// The plan of a scan over `[range_start, range_end]`.
#[derive(Clone, Debug)]
pub struct ScanPlan {
    pub range_start: Vec<u8>,
    pub range_end: Vec<u8>,
    pub estimated_keys: usize,
    pub levels_to_scan: Vec<usize>,
    pub use_bloom_filter: bool,
    pub use_index: bool,
    pub cost: CostLevel,
}

/// `{:?}` of a list of numbers: `[a, b, c]`.
pub open spec fn list_text(s: Seq<usize>) -> Seq<char>
    decreases s.len(),
{
    if s.len() == 0 {
        "[]"@
    } else {
        "["@ + list_items(s) + "]"@
    }
}

/// The items of a nonempty list, separated by `", "`.
pub open spec fn list_items(s: Seq<usize>) -> Seq<char>
    decreases s.len(),
{
    if s.len() <= 1 {
        if s.len() == 0 { Seq::empty() } else { decimal_digits(s[0] as nat) }
    } else {
        list_items(s.drop_last()) + ", "@ + decimal_digits(s.last() as nat)
    }
}

/// `{}` of a boolean.
pub open spec fn bool_text(b: bool) -> Seq<char> {
    if b { "true"@ } else { "false"@ }
}

/// `{:?}` of a cost class.
pub open spec fn cost_text(c: CostLevel) -> Seq<char> {
    match c {
        CostLevel::Low => "Low"@,
        CostLevel::Medium => "Medium"@,
        CostLevel::High => "High"@,
    }
}

fn push_bool(out: &mut String, b: bool)
    ensures
        final(out)@ == old(out)@ + bool_text(b),
{
    if b {
        out.append("true");
    } else {
        out.append("false");
    }
}

fn push_list(out: &mut String, s: &Vec<usize>)
    ensures
        final(out)@ == old(out)@ + list_text(s@),
{
    let ghost start = out@;
    out.append("[");
    let mut i: usize = 0;
    while i < s.len()
        invariant
            i <= s@.len(),
            out@ == start + "["@ + list_items(s@.take(i as int)),
        decreases s@.len() - i,
    {
        proof {
            assert(s@.take(i + 1).drop_last() =~= s@.take(i as int));
            if i == 0 {
                assert(s@.take(1) =~= seq![s@[0]]);
            }
        }
        if i > 0 {
            out.append(", ");
        }
        push_decimal(out, s[i] as u64);
        proof {
            if i == 0 {
                assert(list_items(s@.take(0)) =~= Seq::<char>::empty());
            }
            assert(out@ =~= start + "["@ + list_items(s@.take(i + 1)));
        }
        i = i + 1;
    }
    out.append("]");
    proof {
        assert(s@.take(s@.len() as int) =~= s@);
        if s@.len() == 0 {
            assert(list_items(s@.take(0)) =~= Seq::<char>::empty());
            assert(out@ =~= start + "[]"@) by {
                reveal_strlit("[");
                reveal_strlit("]");
                reveal_strlit("[]");
            }
        }
    }
}

impl ScanPlan {
    /// A plan for the range, with default choices: no levels, no estimate,
    /// filter and index in use, medium cost.
    pub fn new(start: &[u8], end: &[u8]) -> (p: ScanPlan)
        ensures
            p.range_start@ == start@,
            p.range_end@ == end@,
            p.estimated_keys == 0,
            p.levels_to_scan@.len() == 0,
            p.use_bloom_filter,
            p.use_index,
            p.cost == CostLevel::Medium,
    {
        ScanPlan {
            range_start: copy_bytes(start),
            range_end: copy_bytes(end),
            estimated_keys: 0,
            levels_to_scan: Vec::new(),
            use_bloom_filter: true,
            use_index: true,
            cost: CostLevel::Medium,
        }
    }

    pub fn with_levels(self, levels: Vec<usize>) -> (p: ScanPlan)
        ensures
            p == (ScanPlan { levels_to_scan: levels, ..self }),
    {
        let mut p = self;
        p.levels_to_scan = levels;
        p
    }

    pub fn with_estimated_keys(self, keys: usize) -> (p: ScanPlan)
        ensures
            p == (ScanPlan { estimated_keys: keys, ..self }),
    {
        let mut p = self;
        p.estimated_keys = keys;
        p
    }

    pub fn with_cost(self, cost: CostLevel) -> (p: ScanPlan)
        ensures
            p == (ScanPlan { cost: cost, ..self }),
    {
        let mut p = self;
        p.cost = cost;
        p
    }

    /// The text of the plan, with the range's keys shown as `a` and `b`.
    pub open spec fn text_with(&self, a: Seq<char>, b: Seq<char>) -> Seq<char> {
        "Scan Plan:\n  Range: ["@ + a + ", "@ + b
            + "]\n  Estimated keys: "@ + decimal_digits(self.estimated_keys as nat)
            + "\n  Levels to scan: "@ + list_text(self.levels_to_scan@)
            + "\n  Bloom filter: "@ + bool_text(self.use_bloom_filter)
            + "\n  Index: "@ + bool_text(self.use_index)
            + "\n  Cost: "@ + cost_text(self.cost) + "\n"@
    }

    /// The text of the plan.
    pub open spec fn spec_describe(&self) -> Seq<char> {
        self.text_with(spec_utf8_lossy(self.range_start@), spec_utf8_lossy(self.range_end@))
    }

    /// The plan as text, one field per line (the keys shown as UTF-8, with
    /// invalid bytes replaced; keys that are valid UTF-8 show as the text
    /// they encode).
    pub fn describe(&self) -> (r: String)
        ensures
            r@ == self.spec_describe(),
            vstd::utf8::valid_utf8(self.range_start@) && vstd::utf8::valid_utf8(self.range_end@) ==> r@
                == self.text_with(vstd::utf8::decode_utf8(self.range_start@), vstd::utf8::decode_utf8(self.range_end@)),
    {
        let mut s = "Scan Plan:\n  Range: [".to_owned();
        let a = utf8_lossy(self.range_start.as_slice());
        s.append(a.as_str());
        s.append(", ");
        let b = utf8_lossy(self.range_end.as_slice());
        s.append(b.as_str());
        s.append("]\n  Estimated keys: ");
        push_decimal(&mut s, self.estimated_keys as u64);
        s.append("\n  Levels to scan: ");
        push_list(&mut s, &self.levels_to_scan);
        s.append("\n  Bloom filter: ");
        push_bool(&mut s, self.use_bloom_filter);
        s.append("\n  Index: ");
        push_bool(&mut s, self.use_index);
        s.append("\n  Cost: ");
        match self.cost {
            CostLevel::Low => s.append("Low"),
            CostLevel::Medium => s.append("Medium"),
            CostLevel::High => s.append("High"),
        }
        s.append("\n");
        s
    }
}

} // verus!
