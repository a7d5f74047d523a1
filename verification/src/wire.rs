//! The rule tree carried on the wire: child lists and a minimum count per
//! node, with no tag that tells the combinators apart.

use vstd::prelude::*;

verus! {

/// The role of a principal as the wire schema enumerates it.
#[derive(Debug, Clone, Copy, PartialEq, Eq, Hash, Structural)]
pub enum WireRole {
    MEMBER,
    ADMIN,
    CLIENT,
    PEER,
}

/// A principal entry of a wire rule.
#[derive(Debug)]
pub struct WirePrincipal {
    pub msp_id: String,
    pub role: WireRole,
}

/// One node of the wire rule tree.
#[derive(Debug)]
pub struct WireRule {
    pub min_endorsements: i32,
    pub principals: Vec<WirePrincipal>,
    pub rules: Vec<WireRule>,
}

/// The mathematical value of a [`WirePrincipal`].
pub struct Entry {
    pub msp_id: Seq<char>,
    pub role: WireRole,
}

/// The mathematical value of a [`WireRule`].
pub struct Rule {
    pub min_endorsements: int,
    pub principals: Seq<Entry>,
    pub rules: Seq<Rule>,
}

impl View for WirePrincipal {
    type V = Entry;

    open spec fn view(&self) -> Entry {
        Entry { msp_id: self.msp_id@, role: self.role }
    }
}

/// The values of a list of principal entries, in order.
pub open spec fn entries(principals: Seq<WirePrincipal>) -> Seq<Entry> {
    Seq::new(principals.len(), |i: int| principals[i]@)
}

/// The values of a list of wire rules, in order.
pub open spec fn rule_values(rules: Seq<WireRule>) -> Seq<Rule>
    decreases rules,
{
    Seq::new(
        rules.len(),
        |i: int|
            if 0 <= i < rules.len() {
                rules[i].view()
            } else {
                arbitrary()
            },
    )
}

/// The values of a list of wire rules are the values of its members.
pub proof fn lemma_rule_values(rules: Seq<WireRule>)
    ensures
        rule_values(rules).len() == rules.len(),
        forall|i: int| 0 <= i < rules.len() ==> #[trigger] rule_values(rules)[i] == rules[i]@,
{
}

impl View for WireRule {
    type V = Rule;

    open spec fn view(&self) -> Rule
        decreases self,
    {
        Rule {
            min_endorsements: self.min_endorsements as int,
            principals: entries(self.principals@),
            rules: rule_values(self.rules@),
        }
    }
}

impl Rule {
    /// The rule with no entries and a minimum of zero.
    pub open spec fn empty() -> Rule {
        Rule { min_endorsements: 0, principals: Seq::empty(), rules: Seq::empty() }
    }

    /// The number of direct entries: principals and sub-rules together.
    pub open spec fn total(self) -> nat {
        self.principals.len() + self.rules.len()
    }
}

impl WireRule {
    /// A rule with no entries and a minimum of zero.
    pub fn new() -> (rule: WireRule)
        ensures
            rule@ == Rule::empty(),
    {
        let rule = WireRule { min_endorsements: 0, principals: Vec::new(), rules: Vec::new() };
        assert(rule@.principals =~= Seq::empty());
        assert(rule@.rules =~= Seq::empty());
        rule
    }
}

/// A count as the wire's 32-bit signed field holds it: reduced modulo 2^32
/// into the signed range.
pub open spec fn wrap_i32(n: int) -> int {
    let low = n % 0x1_0000_0000;
    if low < 0x8000_0000 {
        low
    } else {
        low - 0x1_0000_0000
    }
}

/// Stores a count in the wire's 32-bit signed field.
pub fn count_to_wire(n: usize) -> (min: i32)
    ensures
        min as int == wrap_i32(n as int),
        n <= i32::MAX ==> min as int == n as int,
{
    let low: u64 = (n as u64) % 0x1_0000_0000u64;
    if low < 0x8000_0000u64 {
        low as i32
    } else {
        (low as i64 - 0x1_0000_0000i64) as i32
    }
}

/// The threshold that a minimum read from the wire stands for: the minimum
/// itself, a negative one reinterpreted as an unsigned machine word.
pub open spec fn threshold_of(min: int) -> nat {
    if min >= 0 {
        min as nat
    } else {
        (usize::MAX + 1 + min) as nat
    }
}

/// Reads a threshold from the wire's minimum.
pub fn threshold_from_wire(min: i32) -> (threshold: usize)
    ensures
        threshold as nat == threshold_of(min as int),
{
    if min >= 0 {
        min as usize
    } else {
        usize::MAX - ((-(min + 1)) as usize)
    }
}

} // verus!
