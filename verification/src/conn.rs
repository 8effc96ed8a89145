//! The live connection snapshot.
//!
//! The connection table is read wholesale on each due tick and parsed row by
//! row. Partial-failure isolation is the point of this module: a row that
//! fails to parse is skipped and counted, and never discards the rows around
//! it. The result always replaces the previous snapshot in full.

use crate::codec::{digits_val, lines_of, num_ok, split_bytes, COMMA};
use crate::error::FwError;
use vstd::prelude::*;
use vstd::string::StringSliceAdditionalSpecFns;

verus! {

/// One live connection, read-only. The protocol name and the timestamp are
/// carried through as raw byte strings, unparsed.
pub struct Connection {
    pub src_ip: Vec<u8>,
    pub dst_ip: Vec<u8>,
    pub src_port: u16,
    pub dst_port: u16,
    pub proto: Vec<u8>,
    pub state: u8,
    pub last_seen: Vec<u8>,
}

/// The mathematical value of a connection.
#[verifier::ext_equal]
pub struct ConnV {
    pub src_ip: Seq<u8>,
    pub dst_ip: Seq<u8>,
    pub src_port: u16,
    pub dst_port: u16,
    pub proto: Seq<u8>,
    pub state: u8,
    pub last_seen: Seq<u8>,
}

impl View for Connection {
    type V = ConnV;

    open spec fn view(&self) -> ConnV {
        ConnV {
            src_ip: self.src_ip@,
            dst_ip: self.dst_ip@,
            src_port: self.src_port,
            dst_port: self.dst_port,
            proto: self.proto@,
            state: self.state,
            last_seen: self.last_seen@,
        }
    }
}

impl DeepView for Connection {
    type V = ConnV;

    open spec fn deep_view(&self) -> ConnV {
        self.view()
    }
}

/// The header line of the connection table.
pub open spec fn conn_header() -> Seq<u8> {
    "src_ip,dst_ip,src_port,dst_port,proto,state,last_seen".spec_bytes()
}

/// Reads one data row: seven fields, with bounded decimal ports and state.
pub open spec fn parse_conn_row(line: Seq<u8>) -> Option<ConnV> {
    let fs = split_bytes(line, COMMA);
    if fs.len() == 7 && num_ok(fs[2], u16::MAX as int) && num_ok(fs[3], u16::MAX as int) && num_ok(
        fs[5],
        u8::MAX as int,
    ) {
        Some(
            ConnV {
                src_ip: fs[0],
                dst_ip: fs[1],
                src_port: digits_val(fs[2]) as u16,
                dst_port: digits_val(fs[3]) as u16,
                proto: fs[4],
                state: digits_val(fs[5]) as u8,
                last_seen: fs[6],
            },
        )
    } else {
        None
    }
}

/// The connections of the well-formed rows, in row order.
pub open spec fn parse_conn_rows(rows: Seq<Seq<u8>>) -> Seq<ConnV>
    decreases rows.len(),
{
    if rows.len() == 0 {
        Seq::<ConnV>::empty()
    } else {
        let rest = parse_conn_rows(rows.drop_last());
        match parse_conn_row(rows.last()) {
            Some(c) => rest.push(c),
            None => rest,
        }
    }
}

/// How many rows fail to parse.
pub open spec fn count_bad_rows(rows: Seq<Seq<u8>>) -> nat
    decreases rows.len(),
{
    if rows.len() == 0 {
        0
    } else {
        count_bad_rows(rows.drop_last()) + if parse_conn_row(rows.last()) is Some {
            0nat
        } else {
            1nat
        }
    }
}

/// What a refresh yields from the table's byte content: the connections of
/// the well-formed data rows, and the number of rows that were skipped. A
/// missing or headerless table degrades to an empty snapshot.
pub open spec fn snapshot_spec(content: Option<Seq<u8>>) -> (Seq<ConnV>, nat) {
    match content {
        Some(c) => {
            let ls = lines_of(c);
            if ls.len() >= 1 && ls[0] == conn_header() {
                (parse_conn_rows(ls.drop_first()), count_bad_rows(ls.drop_first()))
            } else {
                (Seq::<ConnV>::empty(), 0)
            }
        },
        None => (Seq::<ConnV>::empty(), 0),
    }
}

/// Partial-failure isolation, stated in full: the snapshot holds exactly the
/// well-formed rows' connections, in their original order; malformed rows
/// affect nothing but the skip count.
pub proof fn lemma_conn_rows_exact(rows: Seq<Seq<u8>>)
    ensures
        parse_conn_rows(rows) =~~= rows.filter((|l: Seq<u8>| parse_conn_row(l) is Some))
            .map_values((|l: Seq<u8>| parse_conn_row(l)->Some_0)),
    decreases rows.len(),
{
    reveal(Seq::filter);
    let pred = (|l: Seq<u8>| parse_conn_row(l) is Some);
    let proj = (|l: Seq<u8>| parse_conn_row(l)->Some_0);
    if rows.len() > 0 {
        lemma_conn_rows_exact(rows.drop_last());
        let prev = rows.drop_last();
        if pred(rows.last()) {
            assert(rows.filter(pred) == prev.filter(pred).push(rows.last()));
            assert(prev.filter(pred).push(rows.last()).map_values(proj) =~= prev.filter(pred)
                .map_values(proj).push(proj(rows.last())));
        } else {
            assert(rows.filter(pred) == prev.filter(pred));
        }
    }
}

/// The header line of the connection table, as bytes.
pub fn conn_header_vec() -> (r: Vec<u8>)
    ensures
        r@ == conn_header(),
{
    vstd::slice::slice_to_vec("src_ip,dst_ip,src_port,dst_port,proto,state,last_seen".as_bytes())
}

/// Reads one data row, as `parse_conn_row` says.
pub fn parse_conn_line(line: &[u8]) -> (r: Option<Connection>)
    ensures
        match r {
            Some(c) => parse_conn_row(line@) == Some(c@),
            None => parse_conn_row(line@) is None,
        },
{
    let fields = crate::codec::split_vec(line, COMMA);
    let ghost fs = split_bytes(line@, COMMA);
    proof {
        assert(fields.deep_view().len() == fields@.len());
    }
    if fields.len() != 7 {
        return None;
    }
    proof {
        assert forall|i: int| 0 <= i < 7 implies fields@[i]@ == fs[i] by {
            assert(fields.deep_view()[i] == fields@[i].deep_view());
        }
    }
    let sp = match crate::codec::parse_num(fields[2].as_slice(), 65535) {
        Some(v) => v,
        None => {
            return None;
        },
    };
    let dp = match crate::codec::parse_num(fields[3].as_slice(), 65535) {
        Some(v) => v,
        None => {
            return None;
        },
    };
    let st = match crate::codec::parse_num(fields[5].as_slice(), 255) {
        Some(v) => v,
        None => {
            return None;
        },
    };
    let c = Connection {
        src_ip: vstd::slice::slice_to_vec(fields[0].as_slice()),
        dst_ip: vstd::slice::slice_to_vec(fields[1].as_slice()),
        src_port: sp as u16,
        dst_port: dp as u16,
        proto: vstd::slice::slice_to_vec(fields[4].as_slice()),
        state: st as u8,
        last_seen: vstd::slice::slice_to_vec(fields[6].as_slice()),
    };
    proof {
        assert(c@ =~= parse_conn_row(line@)->Some_0);
    }
    Some(c)
}

proof fn lemma_conns_deep_view_push(v: Vec<Connection>, w: Vec<Connection>, x: Connection)
    requires
        w@ == v@.push(x),
    ensures
        w.deep_view() =~~= v.deep_view().push(x@),
{
}

/// Rebuilds the snapshot from the table's byte content (or its absence), as
/// `snapshot_spec` says: well-formed rows in order, skipped rows counted.
pub fn refresh_from_content(content: Option<&[u8]>) -> (r: (Vec<Connection>, usize))
    ensures
        ({
            let spec = snapshot_spec(
                match content {
                    Some(c) => Some(c@),
                    None => None,
                },
            );
            r.0.deep_view() == spec.0 && r.1 == spec.1
        }),
{
    let c = match content {
        Some(c) => c,
        None => {
            let out: Vec<Connection> = Vec::new();
            proof {
                assert(out.deep_view() =~~= Seq::<ConnV>::empty());
            }
            return (out, 0);
        },
    };
    let lines = crate::codec::lines_vec(c);
    let ghost ls = lines_of(c@);
    proof {
        assert(lines.deep_view().len() == lines@.len());
        assert forall|i: int| 0 <= i < lines@.len() implies lines@[i]@ == ls[i] by {
            assert(lines.deep_view()[i] == lines@[i].deep_view());
        }
    }
    let header = conn_header_vec();
    if lines.len() == 0 || !crate::codec::bytes_eq(lines[0].as_slice(), header.as_slice()) {
        let out: Vec<Connection> = Vec::new();
        proof {
            assert(out.deep_view() =~~= Seq::<ConnV>::empty());
        }
        return (out, 0);
    }
    let ghost rows = ls.drop_first();
    let mut out: Vec<Connection> = Vec::new();
    let mut skipped: usize = 0;
    let mut i: usize = 1;
    proof {
        assert(out.deep_view() =~~= parse_conn_rows(rows.take(0)));
    }
    while i < lines.len()
        invariant
            1 <= i <= lines@.len(),
            ls == lines_of(c@),
            ls.len() == lines@.len(),
            rows == ls.drop_first(),
            forall|j: int| 0 <= j < lines@.len() ==> #[trigger] lines@[j]@ == ls[j],
            out.deep_view() =~~= parse_conn_rows(rows.take(i - 1)),
            skipped == count_bad_rows(rows.take(i - 1)),
            skipped <= i - 1,
        decreases lines@.len() - i,
    {
        proof {
            assert(rows.take(i as int).drop_last() =~~= rows.take(i - 1));
            assert(rows.take(i as int).last() == rows[i - 1]);
            assert(rows[i - 1] == ls[i as int]);
        }
        match parse_conn_line(lines[i].as_slice()) {
            Some(conn) => {
                let ghost out0 = out;
                out.push(conn);
                proof {
                    lemma_conns_deep_view_push(out0, out, out@.last());
                }
            },
            None => {
                skipped = skipped + 1;
            },
        }
        i = i + 1;
    }
    proof {
        assert(rows.take(rows.len() as int) =~~= rows);
        assert(rows.len() == ls.len() - 1);
    }
    (out, skipped)
}

/// What a refresh reports: a partial-data error exactly when rows were
/// skipped. Never fatal; the snapshot around it stands either way.
pub fn refresh_report(skipped: usize) -> (r: Option<FwError>)
    ensures
        r == if skipped > 0 {
            Some(FwError::PartialDataError)
        } else {
            None::<FwError>
        },
{
    if skipped > 0 {
        Some(FwError::PartialDataError)
    } else {
        None
    }
}

} // verus!
