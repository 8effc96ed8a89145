//! Filter rules and their CSV form.
//!
//! A rule file is the fixed header line followed by one line per rule, each
//! line terminated by a line feed. Fields are plain: the two address fields
//! may hold any bytes except separators, and the remaining fields are decimal
//! numbers. `parse_rules_spec` is the exact reading of that format and
//! `encode_rules_spec` its writing; saving then loading a valid rule sequence
//! returns it unchanged (`lemma_rules_round_trip`).

use crate::codec::{
    dec_digits, digits_val, free_of, is_digit, join_bytes, lines_of, num_ok, split_bytes, COMMA,
    CR, LF,
};
use vstd::prelude::*;
use vstd::string::StringSliceAdditionalSpecFns;

verus! {

/// One filter rule. Addresses are kept as raw byte strings, unvalidated,
/// exactly as the console displays and edits them.
pub struct Rule {
    pub src_ip: Vec<u8>,
    pub dst_ip: Vec<u8>,
    pub src_port: u16,
    pub dst_port: u16,
    pub protocol: u8,
    pub flow_direction: u8,
    pub action: u8,
    pub log: u8,
}

/// The mathematical value of a rule.
#[verifier::ext_equal]
pub struct RuleV {
    pub src_ip: Seq<u8>,
    pub dst_ip: Seq<u8>,
    pub src_port: u16,
    pub dst_port: u16,
    pub protocol: u8,
    pub flow_direction: u8,
    pub action: u8,
    pub log: u8,
}

impl View for Rule {
    type V = RuleV;

    open spec fn view(&self) -> RuleV {
        RuleV {
            src_ip: self.src_ip@,
            dst_ip: self.dst_ip@,
            src_port: self.src_port,
            dst_port: self.dst_port,
            protocol: self.protocol,
            flow_direction: self.flow_direction,
            action: self.action,
            log: self.log,
        }
    }
}

impl DeepView for Rule {
    type V = RuleV;

    open spec fn deep_view(&self) -> RuleV {
        self.view()
    }
}

/// An address field is plain: free of the separators of the format.
pub open spec fn field_plain(s: Seq<u8>) -> bool {
    free_of(s, COMMA) && free_of(s, LF) && free_of(s, CR)
}

/// A rule can be written as a CSV row exactly when its address fields are
/// plain; the numeric fields always can be.
pub open spec fn rule_valid(r: RuleV) -> bool {
    field_plain(r.src_ip) && field_plain(r.dst_ip)
}

pub open spec fn rules_valid(rs: Seq<RuleV>) -> bool {
    forall|i: int| 0 <= i < rs.len() ==> rule_valid(#[trigger] rs[i])
}

/// The header line of a rule file.
pub open spec fn rule_header() -> Seq<u8> {
    "src_ip,dst_ip,src_port,dst_port,protocol,flow_direction,action,log".spec_bytes()
}

pub proof fn lemma_rule_header_plain()
    ensures
        rule_header().len() == 66,
        free_of(rule_header(), LF),
        free_of(rule_header(), CR),
{
    let lit = "src_ip,dst_ip,src_port,dst_port,protocol,flow_direction,action,log";
    reveal_strlit("src_ip,dst_ip,src_port,dst_port,protocol,flow_direction,action,log");
    assert(lit@.len() == 66);
    assert(vstd::utf8::is_ascii_chars(lit@));
    vstd::utf8::is_ascii_chars_encode_utf8(lit@);
    assert(rule_header() == vstd::utf8::encode_utf8(lit@));
    assert(forall|i: int|
        0 <= i < 66 ==> rule_header()[i] == #[verifier::truncate] (lit@[i] as u8));
}

/// The eight fields of a rule row, in file order.
pub open spec fn rule_fields(r: RuleV) -> Seq<Seq<u8>> {
    seq![
        r.src_ip,
        r.dst_ip,
        dec_digits(r.src_port as nat),
        dec_digits(r.dst_port as nat),
        dec_digits(r.protocol as nat),
        dec_digits(r.flow_direction as nat),
        dec_digits(r.action as nat),
        dec_digits(r.log as nat),
    ]
}

pub open spec fn encode_rule(r: RuleV) -> Seq<u8> {
    join_bytes(rule_fields(r), COMMA)
}

/// The lines of a rule file holding `rs`: the header, then one row per rule.
pub open spec fn rule_file_lines(rs: Seq<RuleV>) -> Seq<Seq<u8>> {
    seq![rule_header()] + Seq::new(rs.len(), |i: int| encode_rule(rs[i]))
}

/// The full byte content of a rule file holding `rs`.
pub open spec fn encode_rules_spec(rs: Seq<RuleV>) -> Seq<u8> {
    join_bytes(rule_file_lines(rs), LF) + seq![LF]
}

/// Reads one data row. The row must have exactly eight fields, its address
/// fields must be plain, and its numeric fields must be bounded decimals.
pub open spec fn parse_rule_row(line: Seq<u8>) -> Option<RuleV> {
    let fs = split_bytes(line, COMMA);
    if fs.len() == 8 && field_plain(fs[0]) && field_plain(fs[1]) && num_ok(fs[2], u16::MAX as int)
        && num_ok(fs[3], u16::MAX as int) && num_ok(fs[4], u8::MAX as int) && num_ok(
        fs[5],
        u8::MAX as int,
    ) && num_ok(fs[6], u8::MAX as int) && num_ok(fs[7], u8::MAX as int) {
        Some(
            RuleV {
                src_ip: fs[0],
                dst_ip: fs[1],
                src_port: digits_val(fs[2]) as u16,
                dst_port: digits_val(fs[3]) as u16,
                protocol: digits_val(fs[4]) as u8,
                flow_direction: digits_val(fs[5]) as u8,
                action: digits_val(fs[6]) as u8,
                log: digits_val(fs[7]) as u8,
            },
        )
    } else {
        None
    }
}

/// Reads a whole rule file: the header line followed by data rows, every one
/// of which must parse. Anything else is a failure.
pub open spec fn parse_rules_spec(c: Seq<u8>) -> Option<Seq<RuleV>> {
    let ls = lines_of(c);
    if ls.len() >= 1 && ls[0] == rule_header() && (forall|i: int|
        1 <= i < ls.len() ==> parse_rule_row(#[trigger] ls[i]) is Some) {
        Some(Seq::new((ls.len() - 1) as nat, |i: int| parse_rule_row(ls[i + 1])->Some_0))
    } else {
        None
    }
}

proof fn lemma_free_concat(a: Seq<u8>, b: Seq<u8>, x: u8)
    requires
        free_of(a, x),
        free_of(b, x),
    ensures
        free_of(a + b, x),
{
    assert forall|i: int| 0 <= i < (a + b).len() implies (a + b)[i] != x by {
        if i < a.len() {
            assert((a + b)[i] == a[i]);
        } else {
            assert((a + b)[i] == b[i - a.len()]);
        }
    }
}

proof fn lemma_join_free(parts: Seq<Seq<u8>>, sep: u8, x: u8)
    requires
        sep != x,
        forall|i: int| 0 <= i < parts.len() ==> free_of(#[trigger] parts[i], x),
    ensures
        free_of(join_bytes(parts, sep), x),
    decreases parts.len(),
{
    if parts.len() >= 2 {
        assert(forall|i: int|
            0 <= i < parts.drop_first().len() ==> free_of(#[trigger] parts.drop_first()[i], x));
        lemma_join_free(parts.drop_first(), sep, x);
        assert(free_of(seq![sep], x));
        lemma_free_concat(parts[0], seq![sep], x);
        lemma_free_concat(parts[0] + seq![sep], join_bytes(parts.drop_first(), sep), x);
    }
}

/// Digit strings are plain fields.
proof fn lemma_digits_plain(n: nat)
    ensures
        field_plain(dec_digits(n)),
{
    crate::codec::lemma_dec_digits(n);
    assert forall|i: int| 0 <= i < dec_digits(n).len() implies dec_digits(n)[i] != COMMA && dec_digits(
        n,
    )[i] != LF && dec_digits(n)[i] != CR by {
        assert(is_digit(dec_digits(n)[i]));
    }
}

/// A valid rule's row is a plain line: free of separators of the line level.
proof fn lemma_encode_rule_plain(r: RuleV)
    requires
        rule_valid(r),
    ensures
        free_of(encode_rule(r), LF),
        free_of(encode_rule(r), CR),
{
    let fs = rule_fields(r);
    assert forall|i: int| 0 <= i < fs.len() implies free_of(#[trigger] fs[i], LF) && free_of(
        fs[i],
        CR,
    ) by {
        if i >= 2 {
            if i == 2 {
                lemma_digits_plain(r.src_port as nat);
            } else if i == 3 {
                lemma_digits_plain(r.dst_port as nat);
            } else if i == 4 {
                lemma_digits_plain(r.protocol as nat);
            } else if i == 5 {
                lemma_digits_plain(r.flow_direction as nat);
            } else if i == 6 {
                lemma_digits_plain(r.action as nat);
            } else {
                lemma_digits_plain(r.log as nat);
            }
        }
    }
    lemma_join_free(fs, COMMA, LF);
    lemma_join_free(fs, COMMA, CR);
}

/// Unfolds an eight-field join into one concatenation.
proof fn lemma_join8(fs: Seq<Seq<u8>>, sep: u8)
    requires
        fs.len() == 8,
    ensures
        join_bytes(fs, sep) =~= fs[0] + seq![sep] + fs[1] + seq![sep] + fs[2] + seq![sep] + fs[3]
            + seq![sep] + fs[4] + seq![sep] + fs[5] + seq![sep] + fs[6] + seq![sep] + fs[7],
{
    let t1 = fs.drop_first();
    let t2 = t1.drop_first();
    let t3 = t2.drop_first();
    let t4 = t3.drop_first();
    let t5 = t4.drop_first();
    let t6 = t5.drop_first();
    let t7 = t6.drop_first();
    assert(join_bytes(fs, sep) == fs[0] + seq![sep] + join_bytes(t1, sep));
    assert(join_bytes(t1, sep) == t1[0] + seq![sep] + join_bytes(t2, sep));
    assert(join_bytes(t2, sep) == t2[0] + seq![sep] + join_bytes(t3, sep));
    assert(join_bytes(t3, sep) == t3[0] + seq![sep] + join_bytes(t4, sep));
    assert(join_bytes(t4, sep) == t4[0] + seq![sep] + join_bytes(t5, sep));
    assert(join_bytes(t5, sep) == t5[0] + seq![sep] + join_bytes(t6, sep));
    assert(join_bytes(t6, sep) == t6[0] + seq![sep] + join_bytes(t7, sep));
    assert(t7.len() == 1);
    assert(join_bytes(t7, sep) == t7[0]);
}

/// Reading back the row of a valid rule returns that rule.
pub proof fn lemma_parse_encode_rule(r: RuleV)
    requires
        rule_valid(r),
    ensures
        parse_rule_row(encode_rule(r)) == Some(r),
{
    let fs = rule_fields(r);
    assert forall|i: int| 0 <= i < fs.len() implies free_of(#[trigger] fs[i], COMMA) by {
        if i >= 2 {
            if i == 2 {
                lemma_digits_plain(r.src_port as nat);
            } else if i == 3 {
                lemma_digits_plain(r.dst_port as nat);
            } else if i == 4 {
                lemma_digits_plain(r.protocol as nat);
            } else if i == 5 {
                lemma_digits_plain(r.flow_direction as nat);
            } else if i == 6 {
                lemma_digits_plain(r.action as nat);
            } else {
                lemma_digits_plain(r.log as nat);
            }
        }
    }
    crate::codec::lemma_split_join(fs, COMMA);
    crate::codec::lemma_dec_digits(r.src_port as nat);
    crate::codec::lemma_dec_digits(r.dst_port as nat);
    crate::codec::lemma_dec_digits(r.protocol as nat);
    crate::codec::lemma_dec_digits(r.flow_direction as nat);
    crate::codec::lemma_dec_digits(r.action as nat);
    crate::codec::lemma_dec_digits(r.log as nat);
    lemma_digits_plain(r.src_port as nat);
    lemma_digits_plain(r.dst_port as nat);
    assert(parse_rule_row(encode_rule(r))->Some_0 =~= r);
}

/// A helper identity: appending one rule appends one row and one line feed.
pub proof fn lemma_encode_rules_step(rs: Seq<RuleV>)
    requires
        rs.len() >= 1,
    ensures
        encode_rules_spec(rs) =~= encode_rules_spec(rs.drop_last()) + encode_rule(rs.last())
            + seq![LF],
{
    let fl = rule_file_lines(rs);
    let fld = rule_file_lines(rs.drop_last());
    assert(fl =~~= fld.push(encode_rule(rs.last())));
    lemma_join_push(fld, encode_rule(rs.last()), LF);
}

proof fn lemma_join_push(parts: Seq<Seq<u8>>, p: Seq<u8>, sep: u8)
    requires
        parts.len() >= 1,
    ensures
        join_bytes(parts.push(p), sep) =~= join_bytes(parts, sep) + seq![sep] + p,
    decreases parts.len(),
{
    if parts.len() == 1 {
        let w = parts.push(p);
        assert(w.len() == 2);
        assert(w.drop_first() =~= seq![p]);
        assert(join_bytes(w.drop_first(), sep) == p);
    } else {
        lemma_join_push(parts.drop_first(), p, sep);
        let w = parts.push(p);
        assert(w.drop_first() =~= parts.drop_first().push(p));
        assert(join_bytes(w, sep) == w[0] + seq![sep] + join_bytes(w.drop_first(), sep));
    }
}

/// Round trip: writing any valid rule sequence and reading the bytes back
/// yields the same sequence, field for field and in the same order.
pub proof fn lemma_rules_round_trip(rs: Seq<RuleV>)
    requires
        rules_valid(rs),
    ensures
        parse_rules_spec(encode_rules_spec(rs)) == Some(rs),
{
    let fl = rule_file_lines(rs);
    let c = encode_rules_spec(rs);
    lemma_rule_header_plain();
    assert forall|i: int| 0 <= i < fl.len() implies free_of(#[trigger] fl[i], LF) by {
        if i >= 1 {
            lemma_encode_rule_plain(rs[i - 1]);
        }
    }
    crate::codec::lemma_split_join(fl, LF);
    assert(c.last() == LF);
    assert(c.drop_last() =~= join_bytes(fl, LF));
    assert(lines_of(c) == split_bytes(join_bytes(fl, LF), LF));
    assert(lines_of(c) =~~= fl);
    assert forall|i: int| 1 <= i < fl.len() implies parse_rule_row(#[trigger] fl[i]) is Some by {
        lemma_parse_encode_rule(rs[i - 1]);
    }
    let out = parse_rules_spec(c)->Some_0;
    assert forall|i: int| 0 <= i < rs.len() implies out[i] == rs[i] by {
        lemma_parse_encode_rule(rs[i]);
        assert(fl[i + 1] == encode_rule(rs[i]));
    }
    assert(out =~~= rs);
}

/// The header line of a rule file, as bytes.
pub fn rule_header_vec() -> (r: Vec<u8>)
    ensures
        r@ == rule_header(),
{
    vstd::slice::slice_to_vec(
        "src_ip,dst_ip,src_port,dst_port,protocol,flow_direction,action,log".as_bytes(),
    )
}

/// Whether a field is free of every separator of the format.
pub fn field_plain_vec(f: &[u8]) -> (r: bool)
    ensures
        r == field_plain(f@),
{
    !crate::codec::contains_byte(f, COMMA) && !crate::codec::contains_byte(f, LF)
        && !crate::codec::contains_byte(f, CR)
}

/// Appends all of `src` to `out`.
pub fn push_bytes(out: &mut Vec<u8>, src: &[u8])
    ensures
        final(out)@ == old(out)@ + src@,
{
    let mut j: usize = 0;
    while j < src.len()
        invariant
            0 <= j <= src@.len(),
            out@ =~= old(out)@ + src@.take(j as int),
        decreases src@.len() - j,
    {
        out.push(*vstd::slice::slice_index_get(src, j));
        proof {
            assert(src@.take(j + 1) =~= src@.take(j as int).push(src@[j as int]));
        }
        j = j + 1;
    }
    proof {
        assert(src@.take(src@.len() as int) =~= src@);
    }
}

/// Appends the CSV row of `r` (without the line feed) to `out`.
fn encode_rule_push(r: &Rule, out: &mut Vec<u8>)
    ensures
        final(out)@ == old(out)@ + encode_rule(r@),
{
    push_bytes(out, r.src_ip.as_slice());
    out.push(COMMA);
    push_bytes(out, r.dst_ip.as_slice());
    out.push(COMMA);
    crate::codec::push_dec(r.src_port as u64, out);
    out.push(COMMA);
    crate::codec::push_dec(r.dst_port as u64, out);
    out.push(COMMA);
    crate::codec::push_dec(r.protocol as u64, out);
    out.push(COMMA);
    crate::codec::push_dec(r.flow_direction as u64, out);
    out.push(COMMA);
    crate::codec::push_dec(r.action as u64, out);
    out.push(COMMA);
    crate::codec::push_dec(r.log as u64, out);
    proof {
        lemma_join8(rule_fields(r@), COMMA);
        assert(out@ =~= old(out)@ + encode_rule(r@));
    }
}

/// The full byte content of a rule file holding `rules`.
pub fn encode_rules_vec(rules: &Vec<Rule>) -> (r: Vec<u8>)
    ensures
        r@ == encode_rules_spec(rules.deep_view()),
{
    let ghost dv = rules.deep_view();
    let mut out: Vec<u8> = Vec::new();
    let header = rule_header_vec();
    push_bytes(&mut out, header.as_slice());
    out.push(LF);
    proof {
        assert(rule_file_lines(dv.take(0)) =~~= seq![rule_header()]);
        assert(join_bytes(rule_file_lines(dv.take(0)), LF) == rule_header());
        assert(out@ =~= encode_rules_spec(dv.take(0)));
    }
    let mut i: usize = 0;
    while i < rules.len()
        invariant
            0 <= i <= rules@.len(),
            dv == rules.deep_view(),
            dv.len() == rules@.len(),
            out@ =~= encode_rules_spec(dv.take(i as int)),
        decreases rules@.len() - i,
    {
        encode_rule_push(&rules[i], &mut out);
        out.push(LF);
        proof {
            lemma_encode_rules_step(dv.take(i + 1));
            assert(dv.take(i + 1).drop_last() =~~= dv.take(i as int));
            assert(dv.take(i + 1).last() == dv[i as int]);
            assert(dv[i as int] == rules@[i as int].deep_view());
            assert(encode_rules_spec(dv.take(i + 1).drop_last()) == encode_rules_spec(
                dv.take(i as int),
            ));
            assert(out@ =~= encode_rules_spec(dv.take(i + 1)));
        }
        i = i + 1;
    }
    proof {
        assert(dv.take(dv.len() as int) =~~= dv);
    }
    out
}

/// Reads one data row, as `parse_rule_row` says.
pub fn parse_rule_line(line: &[u8]) -> (r: Option<Rule>)
    ensures
        match r {
            Some(rule) => parse_rule_row(line@) == Some(rule@),
            None => parse_rule_row(line@) is None,
        },
{
    let fields = crate::codec::split_vec(line, COMMA);
    let ghost fs = split_bytes(line@, COMMA);
    proof {
        assert(fields.deep_view().len() == fields@.len());
    }
    if fields.len() != 8 {
        return None;
    }
    proof {
        assert forall|i: int| 0 <= i < 8 implies fields@[i]@ == fs[i] by {
            assert(fields.deep_view()[i] == fields@[i].deep_view());
        }
    }
    if !field_plain_vec(fields[0].as_slice()) {
        return None;
    }
    if !field_plain_vec(fields[1].as_slice()) {
        return None;
    }
    let sp = match crate::codec::parse_num(fields[2].as_slice(), 65535) {
        Some(v) => v,
        None => {
            return None;
        },
    };
    let dp = match crate::codec::parse_num(fields[3].as_slice(), 65535) {
        Some(v) => v,
        None => {
            return None;
        },
    };
    let proto = match crate::codec::parse_num(fields[4].as_slice(), 255) {
        Some(v) => v,
        None => {
            return None;
        },
    };
    let dir = match crate::codec::parse_num(fields[5].as_slice(), 255) {
        Some(v) => v,
        None => {
            return None;
        },
    };
    let act = match crate::codec::parse_num(fields[6].as_slice(), 255) {
        Some(v) => v,
        None => {
            return None;
        },
    };
    let lg = match crate::codec::parse_num(fields[7].as_slice(), 255) {
        Some(v) => v,
        None => {
            return None;
        },
    };
    let rule = Rule {
        src_ip: vstd::slice::slice_to_vec(fields[0].as_slice()),
        dst_ip: vstd::slice::slice_to_vec(fields[1].as_slice()),
        src_port: sp as u16,
        dst_port: dp as u16,
        protocol: proto as u8,
        flow_direction: dir as u8,
        action: act as u8,
        log: lg as u8,
    };
    proof {
        assert(rule@ =~= parse_rule_row(line@)->Some_0);
    }
    Some(rule)
}

proof fn lemma_rules_deep_view_push(v: Vec<Rule>, w: Vec<Rule>, x: Rule)
    requires
        w@ == v@.push(x),
    ensures
        w.deep_view() =~~= v.deep_view().push(x@),
{
}

/// Reads a whole rule file, as `parse_rules_spec` says.
pub fn parse_rules_vec(c: &[u8]) -> (r: Option<Vec<Rule>>)
    ensures
        match r {
            Some(rules) => parse_rules_spec(c@) == Some(rules.deep_view()),
            None => parse_rules_spec(c@) is None,
        },
{
    let lines = crate::codec::lines_vec(c);
    let ghost ls = lines_of(c@);
    proof {
        assert(lines.deep_view().len() == lines@.len());
        assert forall|i: int| 0 <= i < lines@.len() implies lines@[i]@ == ls[i] by {
            assert(lines.deep_view()[i] == lines@[i].deep_view());
        }
    }
    if lines.len() == 0 {
        return None;
    }
    let header = rule_header_vec();
    if !crate::codec::bytes_eq(lines[0].as_slice(), header.as_slice()) {
        return None;
    }
    let mut out: Vec<Rule> = Vec::new();
    let mut i: usize = 1;
    while i < lines.len()
        invariant
            1 <= i <= lines@.len(),
            ls == lines_of(c@),
            ls.len() == lines@.len(),
            forall|j: int| 0 <= j < lines@.len() ==> #[trigger] lines@[j]@ == ls[j],
            forall|j: int| 1 <= j < i ==> parse_rule_row(#[trigger] ls[j]) is Some,
            out.deep_view() =~~= Seq::new((i - 1) as nat, |j: int| parse_rule_row(ls[j + 1])->Some_0),
        decreases lines@.len() - i,
    {
        let parsed = parse_rule_line(lines[i].as_slice());
        match parsed {
            Some(rule) => {
                let ghost out0 = out;
                let ghost rv = rule@;
                out.push(rule);
                proof {
                    lemma_rules_deep_view_push(out0, out, rule);
                    assert(out.deep_view() =~~= Seq::new(
                        i as nat,
                        |j: int| parse_rule_row(ls[j + 1])->Some_0,
                    ));
                }
            },
            None => {
                proof {
                    assert(parse_rule_row(ls[i as int]) is None);
                }
                return None;
            },
        }
        i = i + 1;
    }
    proof {
        assert(out.deep_view() =~~= parse_rules_spec(c@)->Some_0);
    }
    Some(out)
}

} // verus!
