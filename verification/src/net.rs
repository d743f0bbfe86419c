//! Typed views of the two external tools' output: the socket-listing table
//! (process name to live connections) and the interface-statistics list.

use vstd::prelude::*;
use crate::text::find_at;
use crate::text::find_char_from;
use crate::text::split_lines;
use crate::text::split_lines_exec;
use crate::text::split_tokens;
use crate::text::tokens;
use crate::text::views_of;

verus! {

/// Mathematical model of one observed connection: both endpoints, each as
/// an address and a port kept textual.
pub struct ConnModel {
    pub laddr: Seq<char>,
    pub lport: Seq<char>,
    pub raddr: Seq<char>,
    pub rport: Seq<char>,
}

/// Mathematical model of one successfully parsed socket row.
pub struct RowModel {
    pub process: Seq<char>,
    pub conn: ConnModel,
}

/// Mathematical model of one socket-table entry: a process name and its
/// connections in discovery order.
pub struct EntryModel {
    pub process: Seq<char>,
    pub conns: Seq<ConnModel>,
}

/// One TCP connection attributed to a process; endpoints stay textual
/// because nothing downstream computes on them.
#[derive(Debug)]
pub struct Connection {
    pub laddr: String,
    pub lport: String,
    pub raddr: String,
    pub rport: String,
}

impl View for Connection {
    type V = ConnModel;

    open spec fn view(&self) -> ConnModel {
        ConnModel { laddr: self.laddr@, lport: self.lport@, raddr: self.raddr@, rport: self.rport@ }
    }
}

impl Connection {
    pub fn new(laddr: &str, lport: &str, raddr: &str, rport: &str) -> (c: Connection)
        ensures
            c@ == (ConnModel { laddr: laddr@, lport: lport@, raddr: raddr@, rport: rport@ }),
    {
        Connection {
            laddr: laddr.to_owned(),
            lport: lport.to_owned(),
            raddr: raddr.to_owned(),
            rport: rport.to_owned(),
        }
    }
}

/// One process's entry in the socket table.
#[derive(Debug)]
pub struct SocketEntry {
    pub process: String,
    pub conns: Vec<Connection>,
}

impl View for SocketEntry {
    type V = EntryModel;

    open spec fn view(&self) -> EntryModel {
        EntryModel {
            process: self.process@,
            conns: self.conns@.map_values(|c: Connection| c@),
        }
    }
}

/// The socket table: process names in first-appearance order, each with its
/// connections in row order.
#[derive(Debug)]
pub struct SocketTable {
    pub entries: Vec<SocketEntry>,
}

impl View for SocketTable {
    type V = Seq<EntryModel>;

    open spec fn view(&self) -> Seq<EntryModel> {
        self.entries@.map_values(|e: SocketEntry| e@)
    }
}

/// Splits a token at its first colon into address and port; `None` when no
/// colon is present.
pub open spec fn split_colon(t: Seq<char>) -> Option<(Seq<char>, Seq<char>)> {
    let i = find_at(t, ':');
    if i < t.len() {
        Some((t.take(i), t.skip(i + 1)))
    } else {
        None
    }
}

/// The text between the first pair of double quotes in `t`; `None` when no
/// such pair exists.
pub open spec fn quoted(t: Seq<char>) -> Option<Seq<char>> {
    let i = find_at(t, '"');
    if i < t.len() {
        let rest = t.skip(i + 1);
        let j = find_at(rest, '"');
        if j < rest.len() {
            Some(rest.take(j))
        } else {
            None
        }
    } else {
        None
    }
}

/// Parses one socket-listing row: the third token is the local endpoint,
/// the fourth the remote endpoint, the fifth carries the quoted process
/// name. Any missing piece drops the whole row.
pub open spec fn parse_row(line: Seq<char>) -> Option<RowModel> {
    let ts = tokens(line);
    if ts.len() < 5 {
        None
    } else {
        match (split_colon(ts[2]), split_colon(ts[3]), quoted(ts[4])) {
            (Some(l), Some(r), Some(p)) => Some(
                RowModel {
                    process: p,
                    conn: ConnModel { laddr: l.0, lport: l.1, raddr: r.0, rport: r.1 },
                },
            ),
            _ => None,
        }
    }
}

/// Appends `row`'s connection to the entry of its process, or opens a new
/// entry at the end when the process is not yet present.
pub open spec fn table_insert(t: Seq<EntryModel>, row: RowModel) -> Seq<EntryModel>
    decreases t.len(),
{
    if t.len() == 0 {
        seq![EntryModel { process: row.process, conns: seq![row.conn] }]
    } else if t[0].process == row.process {
        seq![EntryModel { process: t[0].process, conns: t[0].conns.push(row.conn) }]
            + t.drop_first()
    } else {
        seq![t[0]] + table_insert(t.drop_first(), row)
    }
}

/// The socket table after the rows of `ls` before index `i` (the row at
/// index 0 is the header and is never parsed).
pub open spec fn ss_upto(ls: Seq<Seq<char>>, i: int) -> Seq<EntryModel>
    decreases i,
{
    if i <= 1 {
        Seq::empty()
    } else {
        let prev = ss_upto(ls, i - 1);
        if i - 1 < ls.len() {
            match parse_row(ls[i - 1]) {
                Some(row) => table_insert(prev, row),
                None => prev,
            }
        } else {
            prev
        }
    }
}

/// The socket table parsed from a whole socket-listing output.
pub open spec fn ss_table(s: Seq<char>) -> Seq<EntryModel> {
    ss_upto(split_lines(s), split_lines(s).len() as int)
}

/// Rows past the end of the listing change nothing.
proof fn lemma_ss_upto_beyond(ls: Seq<Seq<char>>, i: int)
    requires
        i >= ls.len(),
    ensures
        ss_upto(ls, i) == ss_upto(ls, ls.len() as int),
    decreases
            (if i > ls.len() {
                i - ls.len()
            } else {
                0
            }),
{
    if i > ls.len() {
        if i <= 1 {
        } else {
            lemma_ss_upto_beyond(ls, i - 1);
        }
    }
}

fn split_colon_exec(t: &str) -> (r: Option<(String, String)>)
    ensures
        match r {
            Some(p) => split_colon(t@) == Some((p.0@, p.1@)),
            None => split_colon(t@) is None,
        },
{
    let n = t.unicode_len();
    let i = find_char_from(t, ':', 0);
    proof {
        assert(t@.skip(0) =~= t@);
    }
    if i < n {
        let a = t.substring_char(0, i);
        let b = t.substring_char(i + 1, n);
        proof {
            assert(a@ =~= t@.take(i as int));
            assert(b@ =~= t@.skip(i + 1));
        }
        Some((a.to_owned(), b.to_owned()))
    } else {
        None
    }
}

fn quoted_exec(t: &str) -> (r: Option<String>)
    ensures
        match r {
            Some(p) => quoted(t@) == Some(p@),
            None => quoted(t@) is None,
        },
{
    let n = t.unicode_len();
    let i = find_char_from(t, '"', 0);
    proof {
        assert(t@.skip(0) =~= t@);
    }
    if i >= n {
        return None;
    }
    let j = find_char_from(t, '"', i + 1);
    proof {
        let rest = t@.skip(i + 1);
        if j < n {
            assert(rest.take(j - (i + 1)) =~= t@.subrange(i + 1, j as int));
        }
    }
    if j >= n {
        return None;
    }
    let p = t.substring_char(i + 1, j);
    Some(p.to_owned())
}

fn parse_row_exec(line: &str) -> (r: Option<(String, Connection)>)
    ensures
        match r {
            Some(p) => parse_row(line@) == Some(RowModel { process: p.0@, conn: p.1@ }),
            None => parse_row(line@) is None,
        },
{
    let ts = split_tokens(line);
    if ts.len() < 5 {
        return None;
    }
    proof {
        assert(views_of(ts@)[2] == ts@[2]@);
        assert(views_of(ts@)[3] == ts@[3]@);
        assert(views_of(ts@)[4] == ts@[4]@);
    }
    let local = split_colon_exec(ts[2].as_str());
    let remote = split_colon_exec(ts[3].as_str());
    let process = quoted_exec(ts[4].as_str());
    match (local, remote, process) {
        (Some(l), Some(r), Some(p)) => {
            let conn = Connection::new(l.0.as_str(), l.1.as_str(), r.0.as_str(), r.1.as_str());
            Some((p, conn))
        },
        _ => None,
    }
}

proof fn lemma_table_insert_absent(t: Seq<EntryModel>, row: RowModel)
    requires
        forall|j: int| 0 <= j < t.len() ==> t[j].process != row.process,
    ensures
        table_insert(t, row) == t.push(
            EntryModel { process: row.process, conns: seq![row.conn] },
        ),
    decreases t.len(),
{
    let e = EntryModel { process: row.process, conns: seq![row.conn] };
    if t.len() == 0 {
        assert(table_insert(t, row) =~= t.push(e));
    } else {
        assert forall|j: int| 0 <= j < t.drop_first().len() implies t.drop_first()[j].process
            != row.process by {
            assert(t.drop_first()[j] == t[j + 1]);
        }
        lemma_table_insert_absent(t.drop_first(), row);
        assert(seq![t[0]] + t.drop_first().push(e) =~= t.push(e));
    }
}

proof fn lemma_table_insert_found(t: Seq<EntryModel>, row: RowModel, k: int)
    requires
        0 <= k < t.len(),
        t[k].process == row.process,
        forall|j: int| 0 <= j < k ==> t[j].process != row.process,
    ensures
        table_insert(t, row) == t.update(
            k,
            EntryModel { process: t[k].process, conns: t[k].conns.push(row.conn) },
        ),
    decreases t.len(),
{
    if k == 0 {
        let e = EntryModel { process: t[0].process, conns: t[0].conns.push(row.conn) };
        assert(seq![e] + t.drop_first() =~= t.update(0, e));
    } else {
        assert forall|j: int| 0 <= j < k - 1 implies t.drop_first()[j].process != row.process by {
            assert(t.drop_first()[j] == t[j + 1]);
        }
        assert(t.drop_first()[k - 1] == t[k]);
        lemma_table_insert_found(t.drop_first(), row, k - 1);
        let e = EntryModel { process: t[k].process, conns: t[k].conns.push(row.conn) };
        assert(seq![t[0]] + t.drop_first().update(k - 1, e) =~= t.update(k, e));
    }
}

impl SocketTable {
    /// A table is well formed when process names are distinct and no entry
    /// is empty; `ss` only ever builds such tables.
    pub open spec fn wf(t: Seq<EntryModel>) -> bool {
        &&& forall|a: int, b: int|
            0 <= a < b < t.len() ==> t[a].process != t[b].process
        &&& forall|a: int| 0 <= a < t.len() ==> #[trigger] t[a].conns.len() > 0
    }

    #[verifier::loop_isolation(false)]
    fn insert_row(&mut self, p: String, c: Connection)
        ensures
            final(self)@ == table_insert(old(self)@, RowModel { process: p@, conn: c@ }),
    {
        let ghost t0 = self@;
        let ghost row = RowModel { process: p@, conn: c@ };
        let mut k: usize = 0;
        loop
            invariant
                k <= self.entries.len(),
                self@ == t0,
                forall|j: int| 0 <= j < k ==> t0[j].process != p@,
            decreases self.entries.len() - k,
        {
            if k == self.entries.len() {
                let entry = SocketEntry { process: p, conns: vec![c] };
                proof {
                    lemma_table_insert_absent(t0, row);
                    assert(entry@.conns =~= seq![row.conn]);
                }
                self.entries.push(entry);
                proof {
                    assert(self@ =~= t0.push(
                        EntryModel { process: row.process, conns: seq![row.conn] },
                    ));
                }
                return ;
            }
            let hit = self.entries[k].process == p;
            if hit {
                proof {
                    lemma_table_insert_found(t0, row, k as int);
                }
                let ghost entries0 = self.entries@;
                let mut e = self.entries.remove(k);
                let ghost e0 = e;
                e.conns.push(c);
                proof {
                    assert(t0[k as int] == entries0[k as int]@);
                    assert(e@.conns =~= t0[k as int].conns.push(row.conn));
                }
                let ghost e_snap = e;
                self.entries.insert(k, e);
                proof {
                    let e2 = EntryModel {
                        process: t0[k as int].process,
                        conns: t0[k as int].conns.push(row.conn),
                    };
                    assert(e_snap@.conns == e2.conns);
                    assert(e_snap@ == e2);
                    assert forall|j: int| 0 <= j < self@.len() implies self@[j] == t0.update(
                        k as int,
                        e2,
                    )[j] by {
                        assert(self@[j] == self.entries@[j]@);
                        if j == k as int {
                            assert(self.entries@[j] == e_snap);
                        } else {
                            assert(self.entries@[j] == entries0[j]);
                            assert(t0[j] == entries0[j]@);
                        }
                    }
                    assert(self@ =~= t0.update(k as int, e2));
                }
                return ;
            }
            k += 1;
        }
    }

    /// The connections recorded for process `name`, or `None` when the
    /// process is absent from the table.
    pub open spec fn spec_lookup(t: Seq<EntryModel>, p: Seq<char>) -> Option<Seq<ConnModel>>
        decreases t.len(),
    {
        if t.len() == 0 {
            None
        } else if t[0].process == p {
            Some(t[0].conns)
        } else {
            Self::spec_lookup(t.drop_first(), p)
        }
    }

    #[verifier::loop_isolation(false)]
    pub fn lookup(&self, name: &str) -> (r: Option<&Vec<Connection>>)
        ensures
            match r {
                Some(cs) => Self::spec_lookup(self@, name@) == Some(
                    cs@.map_values(|c: Connection| c@),
                ),
                None => Self::spec_lookup(self@, name@) is None,
            },
    {
        let name_owned = name.to_owned();
        let mut k: usize = 0;
        proof {
            assert(self@.skip(0) =~= self@);
        }
        loop
            invariant
                k <= self.entries.len(),
                name_owned@ == name@,
                Self::spec_lookup(self@, name@) == Self::spec_lookup(self@.skip(k as int), name@),
            decreases self.entries.len() - k,
        {
            if k == self.entries.len() {
                proof {
                    assert(self@.skip(k as int) =~= Seq::<EntryModel>::empty());
                }
                return None;
            }
            proof {
                let t = self@.skip(k as int);
                assert(t[0] == self@[k as int]);
                assert(t.drop_first() =~= self@.skip(k as int + 1));
            }
            let hit = self.entries[k].process == name_owned;
            if hit {
                return Some(&self.entries[k].conns);
            }
            k += 1;
        }
    }
}

/// Parses a whole socket-listing output into the socket table: the header
/// line is discarded, every well-formed row adds one connection under its
/// process name, and every malformed row is skipped without aborting the
/// rest.
#[verifier::loop_isolation(false)]
pub fn ss(output: &str) -> (r: SocketTable)
    ensures
        r@ == ss_table(output@),
        SocketTable::wf(r@),
{
    proof {
        lemma_ss_upto_wf(split_lines(output@), split_lines(output@).len() as int);
    }
    let lines = split_lines_exec(output);
    let ghost ls = views_of(lines@);
    let mut r = SocketTable { entries: Vec::new() };
    proof {
        assert(r@ =~= Seq::<EntryModel>::empty());
    }
    let mut i: usize = 1;
    while i < lines.len()
        invariant
            ls == views_of(lines@),
            1 <= i,
            r@ == ss_upto(ls, i as int),
        decreases lines.len() - i,
    {
        proof {
            assert(ls[i as int] == lines@[i as int]@);
        }
        match parse_row_exec(lines[i].as_str()) {
            Some(pc) => {
                r.insert_row(pc.0, pc.1);
            },
            None => {},
        }
        i += 1;
    }
    proof {
        assert(ls.len() == lines@.len());
        lemma_ss_upto_beyond(ls, i as int);
    }
    r
}

} // verus!


verus! {

/// Mathematical model of one listed interface.
pub struct InterfaceModel {
    pub name: Seq<char>,
    pub up: bool,
}

#[derive(PartialEq, Eq, Structural, Debug)]
enum Status {
    Up,
    Down,
}

/// One network interface as the statistics tool lists it. The tool cannot
/// report link state, so every parsed interface carries status Down; this
/// is a documented limitation of the statistics source, not of the parser.
#[derive(PartialEq, Eq, Debug)]
pub struct Interface {
    pub name: String,
    status: Status,
}

impl View for Interface {
    type V = InterfaceModel;

    closed spec fn view(&self) -> InterfaceModel {
        InterfaceModel { name: self.name@, up: self.status is Up }
    }
}

impl Interface {
    pub fn is_up(&self) -> (r: bool)
        ensures
            r == self@.up,
    {
        self.status == Status::Up
    }
}

/// The first tokens of the lines at `i`, `i + 2`, `i + 4`, ...; a line
/// without a token is dropped.
pub open spec fn names_from(ls: Seq<Seq<char>>, i: int) -> Seq<Seq<char>>
    decreases ls.len() - i,
{
    if i < 0 || i >= ls.len() {
        Seq::empty()
    } else {
        let next = if i + 2 <= ls.len() {
            i + 2
        } else {
            ls.len() as int
        };
        let rest = names_from(ls, next);
        if tokens(ls[i]).len() > 0 {
            seq![tokens(ls[i])[0]] + rest
        } else {
            rest
        }
    }
}

/// The interface names parsed from a whole statistics output: the three
/// banner lines are skipped, then every second line's first token is taken.
pub open spec fn ifstat_names(s: Seq<char>) -> Seq<Seq<char>> {
    names_from(split_lines(s), 3)
}

/// Parses a whole interface-statistics output. The tool interleaves one
/// data line and one units line per interface after a three-line banner;
/// only the data lines are read, and every interface is reported Down.
#[verifier::loop_isolation(false)]
pub fn ifstat(output: &str) -> (r: Vec<Interface>)
    ensures
        r@.map_values(|f: Interface| f@.name) == ifstat_names(output@),
        forall|k: int| 0 <= k < r@.len() ==> !(#[trigger] r@[k])@.up,
{
    let lines = split_lines_exec(output);
    let ghost ls = views_of(lines@);
    let mut r: Vec<Interface> = Vec::new();
    proof {
        assert(r@.map_values(|f: Interface| f@.name) =~= Seq::<Seq<char>>::empty());
        assert(ls.len() == lines@.len());
    }
    let mut i: usize = 3;
    while i < lines.len()
        invariant
            3 <= i,
            r@.map_values(|f: Interface| f@.name) + names_from(ls, i as int) == names_from(ls, 3),
            forall|k: int| 0 <= k < r@.len() ==> !(#[trigger] r@[k])@.up,
        decreases lines.len() - i,
    {
        let ghost r0 = r@;
        let ghost i0 = i as int;
        proof {
            assert(ls[i0] == lines@[i0]@);
        }
        let mut toks = split_tokens(lines[i].as_str());
        if toks.len() > 0 {
            let name = toks.remove(0);
            proof {
                assert(name@ == tokens(ls[i0])[0]);
            }
            r.push(Interface { name, status: Status::Down });
            proof {
                assert(r@.map_values(|f: Interface| f@.name) =~= r0.map_values(
                    |f: Interface| f@.name,
                ).push(tokens(ls[i0])[0]));
            }
        }
        if lines.len() - i >= 2 {
            i += 2;
        } else {
            i = lines.len();
        }
        proof {
            let next = if i0 + 2 <= ls.len() {
                i0 + 2
            } else {
                ls.len() as int
            };
            assert(i as int == next);
            if tokens(ls[i0]).len() > 0 {
                assert(r0.map_values(|f: Interface| f@.name).push(tokens(ls[i0])[0]) + names_from(
                    ls,
                    next,
                ) =~= r0.map_values(|f: Interface| f@.name) + names_from(ls, i0));
            }
        }
    }
    proof {
        assert(names_from(ls, i as int) =~= Seq::<Seq<char>>::empty());
        assert(r@.map_values(|f: Interface| f@.name) + names_from(ls, i as int) =~= r@.map_values(
            |f: Interface| f@.name,
        ));
    }
    r
}


proof fn lemma_table_insert_wf(t: Seq<EntryModel>, row: RowModel)
    requires
        SocketTable::wf(t),
    ensures
        SocketTable::wf(table_insert(t, row)),
    decreases t.len(),
{
    let t2 = table_insert(t, row);
    if t.len() == 0 {
    } else if t[0].process == row.process {
        assert forall|a: int, b: int| 0 <= a < b < t2.len() implies t2[a].process
            != t2[b].process by {
            if a > 0 {
                assert(t2[a] == t[a]);
            }
            assert(t2[b] == t[b]);
        }
        assert forall|a: int| 0 <= a < t2.len() implies #[trigger] t2[a].conns.len() > 0 by {
            if a > 0 {
                assert(t2[a] == t[a]);
            }
        }
    } else {
        let d = t.drop_first();
        assert forall|a: int, b: int| 0 <= a < b < d.len() implies d[a].process
            != d[b].process by {
            assert(d[a] == t[a + 1]);
            assert(d[b] == t[b + 1]);
        }
        assert forall|a: int| 0 <= a < d.len() implies #[trigger] d[a].conns.len() > 0 by {
            assert(d[a] == t[a + 1]);
        }
        lemma_table_insert_wf(d, row);
        let r = table_insert(d, row);
        // t2 == seq![t[0]] + r; t[0].process differs from every process in r
        lemma_insert_processes(d, row);
        assert forall|a: int, b: int| 0 <= a < b < t2.len() implies t2[a].process
            != t2[b].process by {
            if a == 0 {
                assert(t2[b] == r[b - 1]);
                assert(r[b - 1].process == row.process || exists|j: int|
                    0 <= j < d.len() && d[j].process == r[b - 1].process);
                if r[b - 1].process != row.process {
                    let j = choose|j: int| 0 <= j < d.len() && d[j].process == r[b - 1].process;
                    assert(d[j] == t[j + 1]);
                }
            } else {
                assert(t2[a] == r[a - 1]);
                assert(t2[b] == r[b - 1]);
            }
        }
        assert forall|a: int| 0 <= a < t2.len() implies #[trigger] t2[a].conns.len() > 0 by {
            if a > 0 {
                assert(t2[a] == r[a - 1]);
            }
        }
    }
}

/// Every process name in the inserted table is either the row's or one
/// already present.
proof fn lemma_insert_processes(t: Seq<EntryModel>, row: RowModel)
    ensures
        forall|k: int|
            0 <= k < table_insert(t, row).len() ==> (#[trigger] table_insert(t, row)[k].process
                == row.process || exists|j: int|
                0 <= j < t.len() && t[j].process == table_insert(t, row)[k].process),
    decreases t.len(),
{
    let t2 = table_insert(t, row);
    if t.len() == 0 {
    } else if t[0].process == row.process {
        assert forall|k: int| 0 <= k < t2.len() implies (#[trigger] t2[k].process == row.process
            || exists|j: int| 0 <= j < t.len() && t[j].process == t2[k].process) by {
            if k > 0 {
                assert(t2[k] == t[k]);
            }
        }
    } else {
        let d = t.drop_first();
        lemma_insert_processes(d, row);
        let r = table_insert(d, row);
        assert forall|k: int| 0 <= k < t2.len() implies (#[trigger] t2[k].process == row.process
            || exists|j: int| 0 <= j < t.len() && t[j].process == t2[k].process) by {
            if k == 0 {
                assert(t[0].process == t2[0].process);
            } else {
                assert(t2[k] == r[k - 1]);
                if r[k - 1].process != row.process {
                    let j = choose|j: int| 0 <= j < d.len() && d[j].process == r[k - 1].process;
                    assert(d[j] == t[j + 1]);
                }
            }
        }
    }
}

/// The tables `ss` builds are well formed: process names are distinct and
/// no process is present with an empty connection sequence.
pub proof fn lemma_ss_upto_wf(ls: Seq<Seq<char>>, i: int)
    ensures
        SocketTable::wf(ss_upto(ls, i)),
    decreases i,
{
    if i <= 1 {
    } else {
        lemma_ss_upto_wf(ls, i - 1);
        if i - 1 < ls.len() {
            match parse_row(ls[i - 1]) {
                Some(row) => lemma_table_insert_wf(ss_upto(ls, i - 1), row),
                None => {},
            }
        }
    }
}


/// The connections of the valid rows before index `i` whose process is
/// `p`, in row order.
pub open spec fn conns_for(ls: Seq<Seq<char>>, i: int, p: Seq<char>) -> Seq<ConnModel>
    decreases i,
{
    if i <= 1 {
        Seq::empty()
    } else {
        let prev = conns_for(ls, i - 1, p);
        if i - 1 < ls.len() {
            match parse_row(ls[i - 1]) {
                Some(row) => if row.process == p {
                    prev.push(row.conn)
                } else {
                    prev
                },
                None => prev,
            }
        } else {
            prev
        }
    }
}

/// How one insertion changes one process's recorded connections.
proof fn lemma_lookup_insert(t: Seq<EntryModel>, row: RowModel, p: Seq<char>)
    ensures
        SocketTable::spec_lookup(table_insert(t, row), p) == (if row.process == p {
            match SocketTable::spec_lookup(t, p) {
                Some(cs) => Some(cs.push(row.conn)),
                None => Some(seq![row.conn]),
            }
        } else {
            SocketTable::spec_lookup(t, p)
        }),
    decreases t.len(),
{
    let t2 = table_insert(t, row);
    if t.len() == 0 {
        assert(t2[0] == EntryModel { process: row.process, conns: seq![row.conn] });
        assert(t2.drop_first() =~= Seq::<EntryModel>::empty());
        if row.process == p {
            assert(SocketTable::spec_lookup(t2, p) == Some(seq![row.conn]));
        } else {
            assert(SocketTable::spec_lookup(t2, p) == SocketTable::spec_lookup(
                t2.drop_first(),
                p,
            ));
        }
    } else if t[0].process == row.process {
        assert(t2[0] == EntryModel {
            process: t[0].process,
            conns: t[0].conns.push(row.conn),
        });
        assert(t2.drop_first() =~= t.drop_first());
        if t[0].process == p {
            assert(SocketTable::spec_lookup(t2, p) == Some(t[0].conns.push(row.conn)));
            assert(SocketTable::spec_lookup(t, p) == Some(t[0].conns));
        }
    } else {
        lemma_lookup_insert(t.drop_first(), row, p);
        assert(t2[0] == t[0]);
        assert(t2.drop_first() =~= table_insert(t.drop_first(), row));
        if t[0].process == p {
            assert(SocketTable::spec_lookup(t2, p) == Some(t2[0].conns));
        }
    }
}

/// Each process's entry in the parsed socket table holds exactly the
/// connections of its valid rows, one per row, in original row order; a
/// process with no valid row is absent.
pub proof fn lemma_ss_upto_grouping(ls: Seq<Seq<char>>, i: int, p: Seq<char>)
    ensures
        SocketTable::spec_lookup(ss_upto(ls, i), p) == (if conns_for(ls, i, p).len() == 0 {
            None::<Seq<ConnModel>>
        } else {
            Some(conns_for(ls, i, p))
        }),
    decreases i,
{
    if i <= 1 {
    } else {
        lemma_ss_upto_grouping(ls, i - 1, p);
        if i - 1 < ls.len() {
            match parse_row(ls[i - 1]) {
                Some(row) => {
                    lemma_lookup_insert(ss_upto(ls, i - 1), row, p);
                    if row.process == p && conns_for(ls, i - 1, p).len() == 0 {
                        assert(conns_for(ls, i, p) =~= seq![row.conn]);
                    }
                },
                None => {},
            }
        }
    }
}

/// The grouping law over a whole listing.
pub proof fn lemma_ss_grouping(s: Seq<char>, p: Seq<char>)
    ensures
        SocketTable::spec_lookup(ss_table(s), p) == (if conns_for(
            split_lines(s),
            split_lines(s).len() as int,
            p,
        ).len() == 0 {
            None::<Seq<ConnModel>>
        } else {
            Some(conns_for(split_lines(s), split_lines(s).len() as int, p))
        }),
{
    lemma_ss_upto_grouping(split_lines(s), split_lines(s).len() as int, p);
}

proof fn lemma_bad_row_helper(ls: Seq<Seq<char>>, k: int, bad: Seq<char>, i: int)
    requires
        1 <= k <= ls.len(),
        parse_row(bad) is None,
        0 <= i <= ls.len() as int + 1,
    ensures
        i <= k ==> ss_upto(ls.insert(k, bad), i) == ss_upto(ls, i),
        i > k ==> ss_upto(ls.insert(k, bad), i) == ss_upto(ls, i - 1),
    decreases i,
{
    let ls2 = ls.insert(k, bad);
    ls.insert_ensures(k, bad);
    if i <= 1 {
    } else {
        lemma_bad_row_helper(ls, k, bad, i - 1);
    }
}

/// A malformed row contributes no connection and does not disturb the
/// parsing of any other row: inserting it anywhere after the header leaves
/// the parsed table unchanged.
pub proof fn lemma_bad_row_ignored(ls: Seq<Seq<char>>, k: int, bad: Seq<char>)
    requires
        1 <= k <= ls.len(),
        parse_row(bad) is None,
    ensures
        ss_upto(ls.insert(k, bad), ls.len() as int + 1) == ss_upto(ls, ls.len() as int),
{
    lemma_bad_row_helper(ls, k, bad, ls.len() as int + 1);
}

/// How many data lines the interface parser visits: none when the banner
/// is not complete, then every second line.
pub open spec fn stride_count(n: int) -> int {
    if n <= 3 {
        0
    } else {
        (n - 2) / 2
    }
}

/// Data lines are the lines at index 3, 5, 7, ... of the listing.
pub open spec fn stride_lines_tokenized(ls: Seq<Seq<char>>) -> bool {
    forall|k: int|
        3 <= k < ls.len() && (k - 3) % 2 == 0 ==> tokens(#[trigger] ls[k]).len() > 0
}

proof fn lemma_names_from_count(ls: Seq<Seq<char>>, i: int)
    requires
        3 <= i,
        (i - 3) % 2 == 0,
        stride_lines_tokenized(ls),
    ensures
        i < ls.len() ==> names_from(ls, i).len() == (ls.len() - i + 1) / 2,
        i >= ls.len() ==> names_from(ls, i).len() == 0,
    decreases
            (if ls.len() - i >= 0 {
                ls.len() - i
            } else {
                0
            }),
{
    if i < ls.len() {
        let next = if i + 2 <= ls.len() {
            i + 2
        } else {
            ls.len() as int
        };
        assert(tokens(ls[i]).len() > 0);
        if i + 2 <= ls.len() {
            lemma_names_from_count(ls, i + 2);
        } else {
            assert(names_from(ls, next) =~= Seq::<Seq<char>>::empty());
        }
    }
}

/// The number of parsed interfaces equals the number of banner-skipped
/// lines at even stride, provided each data line carries a first token;
/// with `ifstat`'s own contract, every one of them is reported Down.
pub proof fn lemma_ifstat_count(s: Seq<char>)
    requires
        stride_lines_tokenized(split_lines(s)),
    ensures
        ifstat_names(s).len() == stride_count(split_lines(s).len() as int),
{
    lemma_names_from_count(split_lines(s), 3);
}

} // verus!
