//! The mutable rule collection and its persistence.
//!
//! Loading is maximally permissive: a missing file or a file that fails to
//! parse yields an empty collection, never an error, so the console stays
//! renderable. Saving is strict: a rule that cannot be written as a plain CSV
//! row aborts the whole save with a serialization error and produces no
//! bytes. The caller performs the actual file I/O around these functions and
//! is expected to write the returned bytes in one full overwrite.

use crate::error::FwError;
use crate::rule::{
    encode_rules_spec, encode_rules_vec, field_plain_vec, parse_rules_spec, parse_rules_vec, Rule,
    RuleV, rule_valid, rules_valid,
};
use vstd::prelude::*;

verus! {

/// The rule an explicit "add" appends: all fields zero-valued.
pub open spec fn zero_rule() -> RuleV {
    RuleV {
        src_ip: Seq::<u8>::empty(),
        dst_ip: Seq::<u8>::empty(),
        src_port: 0,
        dst_port: 0,
        protocol: 0,
        flow_direction: 0,
        action: 0,
        log: 0,
    }
}

/// The set of positions named by an index list, whatever its order and
/// however often a position repeats.
pub open spec fn picks_of(idxs: Seq<usize>) -> Set<int> {
    Set::new(|i: int| 0 <= i && idxs.contains(i as usize))
}

/// The rules that survive removing the positions in `picks`, in their
/// original relative order.
pub open spec fn remove_positions(rs: Seq<RuleV>, picks: Set<int>) -> Seq<RuleV>
    decreases rs.len(),
{
    if rs.len() == 0 {
        Seq::<RuleV>::empty()
    } else {
        let rest = remove_positions(rs.drop_last(), picks);
        if picks.contains(rs.len() - 1) {
            rest
        } else {
            rest.push(rs.last())
        }
    }
}

/// What loading yields from the content of the rule file, or from its
/// absence: the parsed rules, or nothing on any failure.
pub open spec fn load_result(content: Option<Seq<u8>>) -> Seq<RuleV> {
    match content {
        Some(c) => match parse_rules_spec(c) {
            Some(rs) => rs,
            None => Seq::<RuleV>::empty(),
        },
        None => Seq::<RuleV>::empty(),
    }
}

/// The in-memory, user-editable rule collection.
pub struct RuleStore {
    pub rules: Vec<Rule>,
}

impl View for RuleStore {
    type V = Seq<RuleV>;

    open spec fn view(&self) -> Seq<RuleV> {
        self.rules.deep_view()
    }
}

proof fn lemma_store_deep_view_push(v: Vec<Rule>, w: Vec<Rule>, x: Rule)
    requires
        w@ == v@.push(x),
    ensures
        w.deep_view() =~~= v.deep_view().push(x@),
{
}

fn clone_rule(r: &Rule) -> (c: Rule)
    ensures
        c@ == r@,
{
    let c = Rule {
        src_ip: vstd::slice::slice_to_vec(r.src_ip.as_slice()),
        dst_ip: vstd::slice::slice_to_vec(r.dst_ip.as_slice()),
        src_port: r.src_port,
        dst_port: r.dst_port,
        protocol: r.protocol,
        flow_direction: r.flow_direction,
        action: r.action,
        log: r.log,
    };
    proof {
        assert(c@ =~= r@);
    }
    c
}

/// Whether `i` is one of the positions in `idxs`.
fn picked(idxs: &Vec<usize>, i: usize) -> (r: bool)
    ensures
        r == picks_of(idxs@).contains(i as int),
{
    let mut j: usize = 0;
    while j < idxs.len()
        invariant
            0 <= j <= idxs@.len(),
            forall|k: int| 0 <= k < j ==> idxs@[k] != i,
        decreases idxs@.len() - j,
    {
        if idxs[j] == i {
            return true;
        }
        j = j + 1;
    }
    false
}

impl RuleStore {
    /// An empty collection.
    pub fn new() -> (s: Self)
        ensures
            s@ =~~= Seq::<RuleV>::empty(),
    {
        RuleStore { rules: Vec::new() }
    }

    /// Builds the collection from the content of the rule file, or from its
    /// absence. Any failure — a missing file, a wrong header, any row that
    /// fails to parse — yields an empty collection, never an error.
    pub fn load(content: Option<&[u8]>) -> (s: Self)
        ensures
            s@ == load_result(
                match content {
                    Some(c) => Some(c@),
                    None => None,
                },
            ),
    {
        match content {
            Some(c) => {
                match parse_rules_vec(c) {
                    Some(rules) => {
                        let s = RuleStore { rules };
                        proof {
                            assert(s@ =~~= load_result(Some(c@)));
                        }
                        s
                    },
                    None => {
                        let s = RuleStore { rules: Vec::new() };
                        proof {
                            assert(s@ =~~= load_result(Some(c@)));
                        }
                        s
                    },
                }
            },
            None => {
                let s = RuleStore { rules: Vec::new() };
                proof {
                    assert(s@ =~~= Seq::<RuleV>::empty());
                }
                s
            },
        }
    }

    pub fn len(&self) -> (n: usize)
        ensures
            n == self@.len(),
    {
        proof {
            assert(self@.len() == self.rules@.len());
        }
        self.rules.len()
    }

    /// Appends a zero-valued rule to the end of the sequence.
    pub fn add(&mut self)
        ensures
            final(self)@ =~~= old(self)@.push(zero_rule()),
    {
        let ghost v0 = self.rules;
        self.rules.push(
            Rule {
                src_ip: Vec::new(),
                dst_ip: Vec::new(),
                src_port: 0,
                dst_port: 0,
                protocol: 0,
                flow_direction: 0,
                action: 0,
                log: 0,
            },
        );
        proof {
            lemma_store_deep_view_push(v0, self.rules, self.rules@.last());
        }
    }

    /// Removes exactly the positions named in `idxs`, in whatever order and
    /// with whatever repetitions they are supplied; the relative order of the
    /// surviving rules is preserved. Positions past the end are ignored.
    pub fn remove_indices(&mut self, idxs: &Vec<usize>)
        ensures
            final(self)@ =~~= remove_positions(old(self)@, picks_of(idxs@)),
    {
        let ghost dv = self@;
        let ghost picks = picks_of(idxs@);
        let mut out: Vec<Rule> = Vec::new();
        let mut i: usize = 0;
        proof {
            assert(out.deep_view() =~~= remove_positions(dv.take(0), picks));
        }
        while i < self.rules.len()
            invariant
                0 <= i <= self.rules@.len(),
                dv == self@,
                dv.len() == self.rules@.len(),
                picks == picks_of(idxs@),
                out.deep_view() =~~= remove_positions(dv.take(i as int), picks),
            decreases self.rules@.len() - i,
        {
            proof {
                assert(dv.take(i + 1).drop_last() =~~= dv.take(i as int));
                assert(dv.take(i + 1).last() == dv[i as int]);
            }
            if !picked(idxs, i) {
                let ghost out0 = out;
                let r = clone_rule(&self.rules[i]);
                proof {
                    assert(r@ == dv[i as int]);
                }
                out.push(r);
                proof {
                    lemma_store_deep_view_push(out0, out, out@.last());
                }
            }
            i = i + 1;
        }
        proof {
            assert(dv.take(dv.len() as int) =~~= dv);
        }
        self.rules = out;
    }

    /// Serializes the collection to the full byte content of the rule file.
    /// Succeeds exactly when every rule can be written as a plain row; any
    /// row-encoding failure aborts with no bytes produced, so the caller
    /// leaves the on-disk file untouched.
    pub fn save_content(&self) -> (r: Result<Vec<u8>, FwError>)
        ensures
            match r {
                Ok(bytes) => rules_valid(self@) && bytes@ == encode_rules_spec(self@),
                Err(e) => e == FwError::SerializationError && !rules_valid(self@),
            },
    {
        let ghost dv = self@;
        let mut i: usize = 0;
        while i < self.rules.len()
            invariant
                0 <= i <= self.rules@.len(),
                dv == self@,
                dv.len() == self.rules@.len(),
                forall|j: int| 0 <= j < i ==> rule_valid(#[trigger] dv[j]),
            decreases self.rules@.len() - i,
        {
            let ok = field_plain_vec(self.rules[i].src_ip.as_slice()) && field_plain_vec(
                self.rules[i].dst_ip.as_slice(),
            );
            if !ok {
                proof {
                    assert(!rule_valid(dv[i as int]));
                }
                return Err(FwError::SerializationError);
            }
            i = i + 1;
        }
        Ok(encode_rules_vec(&self.rules))
    }
}

/// Round trip through persistence: loading back the bytes that saving a
/// valid collection produced yields the same rules, field for field and in
/// the same order.
pub proof fn lemma_save_then_load(rs: Seq<RuleV>)
    requires
        rules_valid(rs),
    ensures
        load_result(Some(encode_rules_spec(rs))) == rs,
{
    crate::rule::lemma_rules_round_trip(rs);
}

/// Removal is insensitive to the order (and to repetitions) of the supplied
/// index list: two lists naming the same positions remove the same rules.
pub proof fn lemma_remove_order_irrelevant(rs: Seq<RuleV>, a: Seq<usize>, b: Seq<usize>)
    requires
        a.to_set() == b.to_set(),
    ensures
        remove_positions(rs, picks_of(a)) == remove_positions(rs, picks_of(b)),
{
    assert forall|i: int| picks_of(a).contains(i) == picks_of(b).contains(i) by {
        if 0 <= i {
            assert(a.contains(i as usize) == a.to_set().contains(i as usize));
            assert(b.contains(i as usize) == b.to_set().contains(i as usize));
        }
    }
    assert(picks_of(a) =~= picks_of(b));
}

/// Removal removes exactly the picked positions and keeps the survivors in
/// their original order: the result is the sequence of rules whose position
/// is not picked, taken in position order.
pub proof fn lemma_remove_positions_exact(rs: Seq<RuleV>, picks: Set<int>)
    ensures
        remove_positions(rs, picks) =~~= Seq::new(rs.len(), |i: int| (i, rs[i])).filter(
            (|p: (int, RuleV)| !picks.contains(p.0)),
        ).map_values((|p: (int, RuleV)| p.1)),
    decreases rs.len(),
{
    reveal(Seq::filter);
    let pred = (|p: (int, RuleV)| !picks.contains(p.0));
    let proj = (|p: (int, RuleV)| p.1);
    if rs.len() == 0 {
        assert(Seq::new(0, |i: int| (i, rs[i])) =~= Seq::<(int, RuleV)>::empty());
    } else {
        let n = rs.len() as int;
        let ixd = Seq::new(rs.len(), |i: int| (i, rs[i]));
        let prev = Seq::new(rs.drop_last().len(), |i: int| (i, rs.drop_last()[i]));
        lemma_remove_positions_exact(rs.drop_last(), picks);
        assert(ixd.drop_last() =~= prev);
        assert(ixd.last() == (n - 1, rs.last()));
        if pred(ixd.last()) {
            assert(ixd.filter(pred) == prev.filter(pred).push(ixd.last()));
            assert(prev.filter(pred).push(ixd.last()).map_values(proj) =~= prev.filter(pred)
                .map_values(proj).push(rs.last()));
        } else {
            assert(ixd.filter(pred) == prev.filter(pred));
        }
    }
}

} // verus!
