//! The backing file's text format. A store is written as plain lines: the
//! next ID, the task count, one line per task (`id`, name length, name), the
//! day-record count, and one line per day record (`YYYY-MM-DD` day key, ID
//! count, the IDs). Names are length-prefixed, so any text round-trips.
//! The encoder and parser are specified against the same sequence-level
//! grammar, and decoding an encoded store is proved to give the store back.
use vstd::prelude::*;
use vstd::string::StrSliceExecFns;
use vstd::string::StringExecFns;
use crate::day::Day;
use crate::num::dec_rep;
use crate::num::is_digit;
use crate::num::lemma_parse_pad;
use crate::num::pad_rep;
use crate::num::parse_num;
use crate::num::push_dec;
use crate::num::push_pad2;
use crate::num::push_pad4;
use crate::num::sp_num;
use crate::store::Data;
use crate::store::DataModel;
use crate::store::DayLog;
use crate::store::LogModel;
use crate::store::TaskDescription;
use crate::store::TaskModel;

verus! {

// ---------------------------------------------------------------------------
// The encoding, character by character
// ---------------------------------------------------------------------------
/// A day key: zero-padded `YYYY-MM-DD`.
pub open spec fn enc_day(d: Day) -> Seq<char> {
    pad_rep(d.year as nat, 4) + seq!['-'] + pad_rep(d.month as nat, 2) + seq!['-'] + pad_rep(
        d.day as nat,
        2,
    )
}

/// One task line: ID, name length, then the name itself.
pub open spec fn enc_task(t: TaskModel) -> Seq<char> {
    dec_rep(t.id as nat) + seq![' '] + dec_rep(t.name.len()) + seq![' '] + t.name + seq!['\n']
}

pub open spec fn enc_tasks(ts: Seq<TaskModel>) -> Seq<char>
    decreases ts.len(),
{
    if ts.len() == 0 {
        Seq::empty()
    } else {
        enc_task(ts[0]) + enc_tasks(ts.drop_first())
    }
}

/// The IDs of one day record, each preceded by a space.
pub open spec fn enc_ids(ids: Seq<u32>) -> Seq<char>
    decreases ids.len(),
{
    if ids.len() == 0 {
        Seq::empty()
    } else {
        seq![' '] + dec_rep(ids[0] as nat) + enc_ids(ids.drop_first())
    }
}

/// One day-record line: day key, ID count, the IDs.
pub open spec fn enc_log(l: LogModel) -> Seq<char> {
    enc_day(l.day) + seq![' '] + dec_rep(l.ids.len()) + enc_ids(l.ids) + seq!['\n']
}

pub open spec fn enc_logs(ls: Seq<LogModel>) -> Seq<char>
    decreases ls.len(),
{
    if ls.len() == 0 {
        Seq::empty()
    } else {
        enc_log(ls[0]) + enc_logs(ls.drop_first())
    }
}

/// A whole store.
pub open spec fn enc_model(m: DataModel) -> Seq<char> {
    dec_rep(m.next_id as nat) + seq!['\n'] + dec_rep(m.tasks.len()) + seq!['\n'] + enc_tasks(
        m.tasks,
    ) + dec_rep(m.logs.len()) + seq!['\n'] + enc_logs(m.logs)
}

proof fn lemma_enc_tasks_snoc(ts: Seq<TaskModel>, t: TaskModel)
    ensures
        enc_tasks(ts.push(t)) == enc_tasks(ts) + enc_task(t),
    decreases ts.len(),
{
    if ts.len() == 0 {
        assert(ts.push(t).drop_first() =~= Seq::<TaskModel>::empty());
        assert(ts.push(t)[0] == t);
        assert(enc_tasks(ts.push(t)) == enc_task(t) + enc_tasks(Seq::<TaskModel>::empty()));
        assert(enc_tasks(ts.push(t)) =~= enc_tasks(ts) + enc_task(t));
    } else {
        assert(ts.push(t).drop_first() =~= ts.drop_first().push(t));
        lemma_enc_tasks_snoc(ts.drop_first(), t);
        assert(ts.push(t)[0] == ts[0]);
        assert(enc_tasks(ts.push(t)) == enc_task(ts[0]) + (enc_tasks(ts.drop_first())
            + enc_task(t)));
        assert(enc_tasks(ts.push(t)) =~= enc_tasks(ts) + enc_task(t));
    }
}

proof fn lemma_enc_ids_snoc(ids: Seq<u32>, x: u32)
    ensures
        enc_ids(ids.push(x)) == enc_ids(ids) + seq![' '] + dec_rep(x as nat),
    decreases ids.len(),
{
    if ids.len() == 0 {
        assert(ids.push(x).drop_first() =~= Seq::<u32>::empty());
        assert(ids.push(x)[0] == x);
        assert(enc_ids(ids.push(x)) == seq![' '] + dec_rep(x as nat) + enc_ids(
            Seq::<u32>::empty(),
        ));
        assert(enc_ids(ids.push(x)) =~= enc_ids(ids) + seq![' '] + dec_rep(x as nat));
    } else {
        assert(ids.push(x).drop_first() =~= ids.drop_first().push(x));
        lemma_enc_ids_snoc(ids.drop_first(), x);
        assert(ids.push(x)[0] == ids[0]);
        assert(enc_ids(ids.push(x)) == seq![' '] + dec_rep(ids[0] as nat) + (enc_ids(
            ids.drop_first(),
        ) + seq![' '] + dec_rep(x as nat)));
        assert(enc_ids(ids.push(x)) =~= enc_ids(ids) + seq![' '] + dec_rep(x as nat));
    }
}

proof fn lemma_enc_logs_snoc(ls: Seq<LogModel>, l: LogModel)
    ensures
        enc_logs(ls.push(l)) == enc_logs(ls) + enc_log(l),
    decreases ls.len(),
{
    if ls.len() == 0 {
        assert(ls.push(l).drop_first() =~= Seq::<LogModel>::empty());
        assert(ls.push(l)[0] == l);
        assert(enc_logs(ls.push(l)) == enc_log(l) + enc_logs(Seq::<LogModel>::empty()));
        assert(enc_logs(ls.push(l)) =~= enc_logs(ls) + enc_log(l));
    } else {
        assert(ls.push(l).drop_first() =~= ls.drop_first().push(l));
        lemma_enc_logs_snoc(ls.drop_first(), l);
        assert(ls.push(l)[0] == ls[0]);
        assert(enc_logs(ls.push(l)) == enc_log(ls[0]) + (enc_logs(ls.drop_first()) + enc_log(l)));
        assert(enc_logs(ls.push(l)) =~= enc_logs(ls) + enc_log(l));
    }
}

// ---------------------------------------------------------------------------
// The encoder
// ---------------------------------------------------------------------------
fn push_day(out: &mut String, d: &Day)
    ensures
        final(out)@ == old(out)@ + enc_day(*d),
{
    proof {
        reveal_strlit("-");
    }
    push_pad4(out, d.year as u64);
    out.append("-");
    push_pad2(out, d.month as u64);
    out.append("-");
    push_pad2(out, d.day as u64);
    proof {
        assert(final(out)@ =~= old(out)@ + enc_day(*d));
    }
}

/// Writes the store in the backing file's text format.
pub fn encode(d: &Data) -> (r: String)
    ensures
        r@ == enc_model(d@),
{
    proof {
        reveal_strlit("\n");
        reveal_strlit(" ");
    }
    let mut out = String::new();
    push_dec(&mut out, d.next_id as u64);
    out.append("\n");
    let tn = d.tasks.len();
    push_dec(&mut out, tn as u64);
    out.append("\n");
    let ghost header = out@;
    let mut k: usize = 0;
    while k < tn
        invariant
            tn == d.tasks@.len(),
            k <= tn,
            out@ == header + enc_tasks(d@.tasks.take(k as int)),
        decreases tn - k,
    {
        proof {
            reveal_strlit("\n");
            reveal_strlit(" ");
        }
        let t = &d.tasks[k];
        let ghost pre = out@;
        push_dec(&mut out, t.id as u64);
        out.append(" ");
        let name_len = t.name.as_str().unicode_len();
        push_dec(&mut out, name_len as u64);
        out.append(" ");
        out.append(t.name.as_str());
        out.append("\n");
        proof {
            assert(out@ =~= pre + enc_task(d@.tasks[k as int]));
            lemma_enc_tasks_snoc(d@.tasks.take(k as int), d@.tasks[k as int]);
            assert(d@.tasks.take(k as int + 1) =~= d@.tasks.take(k as int).push(
                d@.tasks[k as int],
            ));
            assert(out@ =~= header + enc_tasks(d@.tasks.take(k as int + 1)));
        }
        k = k + 1;
    }
    proof {
        assert(d@.tasks.take(tn as int) =~= d@.tasks);
    }
    let ln = d.completion.len();
    push_dec(&mut out, ln as u64);
    out.append("\n");
    let ghost mid = out@;
    let mut k2: usize = 0;
    while k2 < ln
        invariant
            ln == d.completion@.len(),
            k2 <= ln,
            out@ == mid + enc_logs(d@.logs.take(k2 as int)),
        decreases ln - k2,
    {
        proof {
            reveal_strlit("\n");
            reveal_strlit(" ");
        }
        let l = &d.completion[k2];
        let ghost pre = out@;
        push_day(&mut out, &l.day);
        out.append(" ");
        let idn = l.ids.len();
        push_dec(&mut out, idn as u64);
        let ghost idstart = out@;
        let mut k3: usize = 0;
        while k3 < idn
            invariant
                idn == l.ids@.len(),
                k3 <= idn,
                out@ == idstart + enc_ids(l.ids@.take(k3 as int)),
            decreases idn - k3,
        {
            proof {
                reveal_strlit(" ");
            }
            let ghost pre3 = out@;
            out.append(" ");
            push_dec(&mut out, l.ids[k3] as u64);
            proof {
                lemma_enc_ids_snoc(l.ids@.take(k3 as int), l.ids@[k3 as int]);
                assert(l.ids@.take(k3 as int + 1) =~= l.ids@.take(k3 as int).push(
                    l.ids@[k3 as int],
                ));
                assert(out@ =~= idstart + enc_ids(l.ids@.take(k3 as int + 1)));
            }
            k3 = k3 + 1;
        }
        proof {
            assert(l.ids@.take(idn as int) =~= l.ids@);
        }
        out.append("\n");
        proof {
            assert(out@ =~= pre + enc_log(d@.logs[k2 as int]));
            lemma_enc_logs_snoc(d@.logs.take(k2 as int), d@.logs[k2 as int]);
            assert(d@.logs.take(k2 as int + 1) =~= d@.logs.take(k2 as int).push(
                d@.logs[k2 as int],
            ));
            assert(out@ =~= mid + enc_logs(d@.logs.take(k2 as int + 1)));
        }
        k2 = k2 + 1;
    }
    proof {
        assert(d@.logs.take(ln as int) =~= d@.logs);
        assert(out@ =~= enc_model(d@));
    }
    out
}

// ---------------------------------------------------------------------------
// The grammar, read back
// ---------------------------------------------------------------------------
/// One expected literal character.
pub open spec fn sp_lit(s: Seq<char>, i: int, c: char) -> Option<int> {
    if 0 <= i < s.len() && s[i] == c {
        Some(i + 1)
    } else {
        None
    }
}

/// A number whose value must lie in `lo ..= hi`.
pub open spec fn sp_range(s: Seq<char>, i: int, lo: nat, hi: nat) -> Option<(nat, int)> {
    match sp_num(s, i) {
        None => None,
        Some((v, j)) => if lo <= v && v <= hi {
            Some((v, j))
        } else {
            None
        },
    }
}

/// A day key, `YYYY-MM-DD`.
pub open spec fn sp_day(s: Seq<char>, i: int) -> Option<(Day, int)> {
    match sp_range(s, i, 0, 9999) {
        None => None,
        Some((y, i1)) => match sp_lit(s, i1, '-') {
            None => None,
            Some(i2) => match sp_range(s, i2, 1, 12) {
                None => None,
                Some((mo, i3)) => match sp_lit(s, i3, '-') {
                    None => None,
                    Some(i4) => match sp_range(s, i4, 1, 31) {
                        None => None,
                        Some((dy, i5)) => Some(
                            (Day { year: y as u32, month: mo as u32, day: dy as u32 }, i5),
                        ),
                    },
                },
            },
        },
    }
}

/// One task line.
pub open spec fn sp_task(s: Seq<char>, i: int) -> Option<(TaskModel, int)> {
    match sp_range(s, i, 0, u32::MAX as nat) {
        None => None,
        Some((id, i1)) => match sp_lit(s, i1, ' ') {
            None => None,
            Some(i2) => match sp_range(s, i2, 0, u32::MAX as nat) {
                None => None,
                Some((l, i3)) => match sp_lit(s, i3, ' ') {
                    None => None,
                    Some(i4) => if i4 + l <= s.len() {
                        match sp_lit(s, i4 + l, '\n') {
                            None => None,
                            Some(i5) => Some(
                                (
                                    TaskModel { id: id as u32, name: s.subrange(i4, i4 + l) },
                                    i5,
                                ),
                            ),
                        }
                    } else {
                        None
                    },
                },
            },
        },
    }
}

/// `cnt` task lines in a row.
pub open spec fn sp_tasks(s: Seq<char>, i: int, cnt: nat) -> Option<(Seq<TaskModel>, int)>
    decreases cnt,
{
    if cnt == 0 {
        Some((Seq::empty(), i))
    } else {
        match sp_task(s, i) {
            None => None,
            Some((t, j)) => match sp_tasks(s, j, (cnt - 1) as nat) {
                None => None,
                Some((rest, j2)) => Some((seq![t] + rest, j2)),
            },
        }
    }
}

/// `cnt` IDs, each preceded by a space.
pub open spec fn sp_ids(s: Seq<char>, i: int, cnt: nat) -> Option<(Seq<u32>, int)>
    decreases cnt,
{
    if cnt == 0 {
        Some((Seq::empty(), i))
    } else {
        match sp_lit(s, i, ' ') {
            None => None,
            Some(i1) => match sp_range(s, i1, 0, u32::MAX as nat) {
                None => None,
                Some((v, i2)) => match sp_ids(s, i2, (cnt - 1) as nat) {
                    None => None,
                    Some((rest, i3)) => Some((seq![v as u32] + rest, i3)),
                },
            },
        }
    }
}

/// One day-record line.
pub open spec fn sp_log(s: Seq<char>, i: int) -> Option<(LogModel, int)> {
    match sp_day(s, i) {
        None => None,
        Some((day, i1)) => match sp_lit(s, i1, ' ') {
            None => None,
            Some(i2) => match sp_range(s, i2, 0, u32::MAX as nat) {
                None => None,
                Some((cnt, i3)) => match sp_ids(s, i3, cnt) {
                    None => None,
                    Some((ids, i4)) => match sp_lit(s, i4, '\n') {
                        None => None,
                        Some(i5) => Some((LogModel { day, ids }, i5)),
                    },
                },
            },
        },
    }
}

/// `cnt` day-record lines in a row.
pub open spec fn sp_logs(s: Seq<char>, i: int, cnt: nat) -> Option<(Seq<LogModel>, int)>
    decreases cnt,
{
    if cnt == 0 {
        Some((Seq::empty(), i))
    } else {
        match sp_log(s, i) {
            None => None,
            Some((l, j)) => match sp_logs(s, j, (cnt - 1) as nat) {
                None => None,
                Some((rest, j2)) => Some((seq![l] + rest, j2)),
            },
        }
    }
}

/// The whole file, which must be consumed exactly.
pub open spec fn sp_parsed(s: Seq<char>) -> Option<DataModel> {
    match sp_range(s, 0, 0, u32::MAX as nat) {
        None => None,
        Some((nid, i1)) => match sp_lit(s, i1, '\n') {
            None => None,
            Some(i2) => match sp_range(s, i2, 0, u32::MAX as nat) {
                None => None,
                Some((tc, i3)) => match sp_lit(s, i3, '\n') {
                    None => None,
                    Some(i4) => match sp_tasks(s, i4, tc) {
                        None => None,
                        Some((ts, i5)) => match sp_range(s, i5, 0, u32::MAX as nat) {
                            None => None,
                            Some((lc, i6)) => match sp_lit(s, i6, '\n') {
                                None => None,
                                Some(i7) => match sp_logs(s, i7, lc) {
                                    None => None,
                                    Some((ls, i8)) => if i8 == s.len() {
                                        Some(
                                            DataModel {
                                                next_id: nid as u32,
                                                tasks: ts,
                                                logs: ls,
                                            },
                                        )
                                    } else {
                                        None
                                    },
                                },
                            },
                        },
                    },
                },
            },
        },
    }
}

/// What decoding yields: the parsed store, accepted only when it satisfies
/// the store's invariants.
pub open spec fn sp_decode(s: Seq<char>) -> Option<DataModel> {
    match sp_parsed(s) {
        None => None,
        Some(m) => if m.wf() {
            Some(m)
        } else {
            None
        },
    }
}

// ---------------------------------------------------------------------------
// The executable parser
// ---------------------------------------------------------------------------
fn expect_char(s: &str, len: usize, i: usize, c: char) -> (r: Option<usize>)
    requires
        len == s@.len(),
        i <= len,
    ensures
        r is None ==> sp_lit(s@, i as int, c) is None,
        r matches Some(j) ==> sp_lit(s@, i as int, c) == Some(j as int) && j == i + 1 && j <= len,
{
    if i < len {
        let ch = s.get_char(i);
        if ch == c {
            return Some(i + 1);
        }
    }
    None
}

fn parse_range(s: &str, len: usize, i: usize, lo: u64, hi: u64) -> (r: Option<(u64, usize)>)
    requires
        len == s@.len(),
        i <= len,
    ensures
        r is None ==> sp_range(s@, i as int, lo as nat, hi as nat) is None,
        r matches Some(p) ==> sp_range(s@, i as int, lo as nat, hi as nat) == Some(
            (p.0 as nat, p.1 as int),
        ) && i <= p.1 <= len && lo <= p.0 <= hi,
{
    match parse_num(s, len, i) {
        None => None,
        Some((v, j)) => if lo <= v && v <= hi {
            Some((v, j))
        } else {
            None
        },
    }
}

fn parse_day(s: &str, len: usize, i: usize) -> (r: Option<(Day, usize)>)
    requires
        len == s@.len(),
        i <= len,
    ensures
        r is None ==> sp_day(s@, i as int) is None,
        r matches Some(p) ==> sp_day(s@, i as int) == Some((p.0, p.1 as int)) && i <= p.1 <= len,
{
    let (y, i1) = match parse_range(s, len, i, 0, 9999) {
        None => return None,
        Some(p) => p,
    };
    let i2 = match expect_char(s, len, i1, '-') {
        None => return None,
        Some(j) => j,
    };
    let (mo, i3) = match parse_range(s, len, i2, 1, 12) {
        None => return None,
        Some(p) => p,
    };
    let i4 = match expect_char(s, len, i3, '-') {
        None => return None,
        Some(j) => j,
    };
    let (dy, i5) = match parse_range(s, len, i4, 1, 31) {
        None => return None,
        Some(p) => p,
    };
    Some((Day { year: y as u32, month: mo as u32, day: dy as u32 }, i5))
}

fn parse_task(s: &str, len: usize, i: usize) -> (r: Option<(TaskDescription, usize)>)
    requires
        len == s@.len(),
        i <= len,
    ensures
        r is None ==> sp_task(s@, i as int) is None,
        r matches Some(p) ==> sp_task(s@, i as int) matches Some(q) && q.0 == p.0@ && q.1
            == p.1 as int && i <= p.1 <= len,
{
    let (id, i1) = match parse_range(s, len, i, 0, u32::MAX as u64) {
        None => return None,
        Some(p) => p,
    };
    let i2 = match expect_char(s, len, i1, ' ') {
        None => return None,
        Some(j) => j,
    };
    let (l, i3) = match parse_range(s, len, i2, 0, u32::MAX as u64) {
        None => return None,
        Some(p) => p,
    };
    let i4 = match expect_char(s, len, i3, ' ') {
        None => return None,
        Some(j) => j,
    };
    if l > (len - i4) as u64 {
        return None;
    }
    let l_us = l as usize;
    let name = s.substring_char(i4, i4 + l_us).to_owned();
    let i5 = match expect_char(s, len, i4 + l_us, '\n') {
        None => return None,
        Some(j) => j,
    };
    Some((TaskDescription { id: id as u32, name }, i5))
}

fn parse_tasks(s: &str, len: usize, i: usize, cnt: u64) -> (r: Option<(Vec<TaskDescription>, usize)>)
    requires
        len == s@.len(),
        i <= len,
    ensures
        r is None ==> sp_tasks(s@, i as int, cnt as nat) is None,
        r matches Some(p) ==> sp_tasks(s@, i as int, cnt as nat) == Some(
            (p.0@.map_values(|t: TaskDescription| t@), p.1 as int),
        ) && i <= p.1 <= len,
{
    let mut acc: Vec<TaskDescription> = Vec::new();
    let mut pos: usize = i;
    let mut k: u64 = 0;
    while k < cnt
        invariant
            len == s@.len(),
            i <= pos <= len,
            k <= cnt,
            ({
                let tail = sp_tasks(s@, pos as int, (cnt - k) as nat);
                let full = sp_tasks(s@, i as int, cnt as nat);
                match tail {
                    Some(q) => full == Some(
                        (acc@.map_values(|t: TaskDescription| t@) + q.0, q.1),
                    ),
                    None => full is None,
                }
            }),
        decreases cnt - k,
    {
        let pr = parse_task(s, len, pos);
        if pr.is_none() {
            return None;
        }
        let (t, j) = pr.unwrap();
        proof {
            let f = |t: TaskDescription| t@;
            let tail = sp_tasks(s@, pos as int, (cnt - k) as nat);
            let q = sp_task(s@, pos as int)->Some_0;
            let tail2 = sp_tasks(s@, q.1, (cnt - k - 1) as nat);
            if tail2 is Some {
                let q2 = tail2->Some_0;
                assert(tail == Some((seq![q.0] + q2.0, q2.1)));
                assert(acc@.push(t).map_values(f) =~= acc@.map_values(f).push(t@));
                assert(acc@.map_values(f).push(t@) + q2.0 =~= acc@.map_values(f) + (seq![q.0]
                    + q2.0));
            }
        }
        acc.push(t);
        pos = j;
        k = k + 1;
    }
    proof {
        assert(acc@.map_values(|t: TaskDescription| t@) + Seq::<TaskModel>::empty()
            =~= acc@.map_values(|t: TaskDescription| t@));
    }
    Some((acc, pos))
}

fn parse_ids(s: &str, len: usize, i: usize, cnt: u64) -> (r: Option<(Vec<u32>, usize)>)
    requires
        len == s@.len(),
        i <= len,
    ensures
        r is None ==> sp_ids(s@, i as int, cnt as nat) is None,
        r matches Some(p) ==> sp_ids(s@, i as int, cnt as nat) == Some((p.0@, p.1 as int)) && i
            <= p.1 <= len,
{
    let mut acc: Vec<u32> = Vec::new();
    let mut pos: usize = i;
    let mut k: u64 = 0;
    while k < cnt
        invariant
            len == s@.len(),
            i <= pos <= len,
            k <= cnt,
            ({
                let tail = sp_ids(s@, pos as int, (cnt - k) as nat);
                let full = sp_ids(s@, i as int, cnt as nat);
                match tail {
                    Some(q) => full == Some((acc@ + q.0, q.1)),
                    None => full is None,
                }
            }),
        decreases cnt - k,
    {
        let i1 = match expect_char(s, len, pos, ' ') {
            None => return None,
            Some(j) => j,
        };
        let pr = parse_range(s, len, i1, 0, u32::MAX as u64);
        if pr.is_none() {
            return None;
        }
        let (v, j) = pr.unwrap();
        proof {
            let tail = sp_ids(s@, pos as int, (cnt - k) as nat);
            let q = sp_range(s@, i1 as int, 0, u32::MAX as nat)->Some_0;
            let tail2 = sp_ids(s@, q.1, (cnt - k - 1) as nat);
            if tail2 is Some {
                let q2 = tail2->Some_0;
                assert(tail == Some((seq![q.0 as u32] + q2.0, q2.1)));
                assert(acc@.push(v as u32) + q2.0 =~= acc@ + (seq![q.0 as u32] + q2.0));
            }
        }
        acc.push(v as u32);
        pos = j;
        k = k + 1;
    }
    proof {
        assert(acc@ + Seq::<u32>::empty() =~= acc@);
    }
    Some((acc, pos))
}

fn parse_log(s: &str, len: usize, i: usize) -> (r: Option<(DayLog, usize)>)
    requires
        len == s@.len(),
        i <= len,
    ensures
        r is None ==> sp_log(s@, i as int) is None,
        r matches Some(p) ==> sp_log(s@, i as int) matches Some(q) && q.0 == p.0@ && q.1
            == p.1 as int && i <= p.1 <= len,
{
    let (day, i1) = match parse_day(s, len, i) {
        None => return None,
        Some(p) => p,
    };
    let i2 = match expect_char(s, len, i1, ' ') {
        None => return None,
        Some(j) => j,
    };
    let (cnt, i3) = match parse_range(s, len, i2, 0, u32::MAX as u64) {
        None => return None,
        Some(p) => p,
    };
    let (ids, i4) = match parse_ids(s, len, i3, cnt) {
        None => return None,
        Some(p) => p,
    };
    let i5 = match expect_char(s, len, i4, '\n') {
        None => return None,
        Some(j) => j,
    };
    Some((DayLog { day, ids }, i5))
}

fn parse_logs(s: &str, len: usize, i: usize, cnt: u64) -> (r: Option<(Vec<DayLog>, usize)>)
    requires
        len == s@.len(),
        i <= len,
    ensures
        r is None ==> sp_logs(s@, i as int, cnt as nat) is None,
        r matches Some(p) ==> sp_logs(s@, i as int, cnt as nat) == Some(
            (p.0@.map_values(|l: DayLog| l@), p.1 as int),
        ) && i <= p.1 <= len,
{
    let mut acc: Vec<DayLog> = Vec::new();
    let mut pos: usize = i;
    let mut k: u64 = 0;
    while k < cnt
        invariant
            len == s@.len(),
            i <= pos <= len,
            k <= cnt,
            ({
                let tail = sp_logs(s@, pos as int, (cnt - k) as nat);
                let full = sp_logs(s@, i as int, cnt as nat);
                match tail {
                    Some(q) => full == Some((acc@.map_values(|l: DayLog| l@) + q.0, q.1)),
                    None => full is None,
                }
            }),
        decreases cnt - k,
    {
        let pr = parse_log(s, len, pos);
        if pr.is_none() {
            return None;
        }
        let (l, j) = pr.unwrap();
        proof {
            let f = |l: DayLog| l@;
            let tail = sp_logs(s@, pos as int, (cnt - k) as nat);
            let q = sp_log(s@, pos as int)->Some_0;
            let tail2 = sp_logs(s@, q.1, (cnt - k - 1) as nat);
            if tail2 is Some {
                let q2 = tail2->Some_0;
                assert(tail == Some((seq![q.0] + q2.0, q2.1)));
                assert(acc@.push(l).map_values(f) =~= acc@.map_values(f).push(l@));
                assert(acc@.map_values(f).push(l@) + q2.0 =~= acc@.map_values(f) + (seq![q.0]
                    + q2.0));
            }
        }
        acc.push(l);
        pos = j;
        k = k + 1;
    }
    proof {
        assert(acc@.map_values(|l: DayLog| l@) + Seq::<LogModel>::empty() =~= acc@.map_values(
            |l: DayLog| l@,
        ));
    }
    Some((acc, pos))
}

/// Whether a day's fields lie in the day-key ranges.
fn day_ok(d: &Day) -> (r: bool)
    ensures
        r == d.wf(),
{
    d.year <= 9999 && 1 <= d.month && d.month <= 12 && 1 <= d.day && d.day <= 31
}

/// Runtime check of the store invariants, exactly `DataModel::wf`.
fn check_wf(d: &Data) -> (r: bool)
    ensures
        r == d@.wf(),
{
    if d.next_id == 0 {
        return false;
    }
    let tn = d.tasks.len();
    let mut k: usize = 0;
    while k < tn
        invariant
            tn == d.tasks@.len(),
            k <= tn,
            forall|t: int| 0 <= t < k ==> (#[trigger] d@.tasks[t]).id < d@.next_id,
        decreases tn - k,
    {
        if d.tasks[k].id >= d.next_id {
            proof {
                assert(d@.tasks[k as int].id >= d@.next_id);
            }
            return false;
        }
        k = k + 1;
    }
    let ln = d.completion.len();
    let mut a: usize = 0;
    while a < ln
        invariant
            ln == d.completion@.len(),
            a <= ln,
            forall|t: int| 0 <= t < a ==> (#[trigger] d@.logs[t]).wf(),
            forall|t: int, u: int| 0 <= t < u < a ==> d@.logs[t].day != d@.logs[u].day,
        decreases ln - a,
    {
        let log = &d.completion[a];
        if !day_ok(&log.day) {
            proof {
                assert(!d@.logs[a as int].wf());
            }
            return false;
        }
        let idn = log.ids.len();
        let mut b: usize = 0;
        while b < idn
            invariant
                ln == d.completion@.len(),
                a < ln,
                idn == log.ids@.len(),
                log.ids@ == d@.logs[a as int].ids,
                b <= idn,
                forall|t: int, u: int|
                    0 <= t < u < b ==> log.ids@[t] != log.ids@[u],
            decreases idn - b,
        {
            let mut c: usize = 0;
            while c < b
                invariant
                    ln == d.completion@.len(),
                    a < ln,
                    idn == log.ids@.len(),
                    log.ids@ == d@.logs[a as int].ids,
                    c <= b < idn,
                    forall|t: int| 0 <= t < c ==> log.ids@[t] != log.ids@[b as int],
                decreases b - c,
            {
                if log.ids[c] == log.ids[b] {
                    proof {
                        assert(!d@.logs[a as int].ids.no_duplicates());
                        assert(!d@.logs[a as int].wf());
                    }
                    return false;
                }
                c = c + 1;
            }
            b = b + 1;
        }
        proof {
            assert(d@.logs[a as int].ids.no_duplicates());
            assert(d@.logs[a as int].wf());
        }
        let mut a2: usize = 0;
        while a2 < a
            invariant
                ln == d.completion@.len(),
                a2 <= a < ln,
                forall|t: int| 0 <= t < a2 ==> d@.logs[t].day != d@.logs[a as int].day,
            decreases a - a2,
        {
            if day_eq(&d.completion[a2].day, &d.completion[a].day) {
                proof {
                    assert(d@.logs[a2 as int].day == d@.logs[a as int].day);
                    assert(!d@.wf());
                }
                return false;
            }
            a2 = a2 + 1;
        }
        a = a + 1;
    }
    true
}

/// Whether two days are the same calendar day.
fn day_eq(x: &Day, y: &Day) -> (r: bool)
    ensures
        r == (*x == *y),
{
    x.year == y.year && x.month == y.month && x.day == y.day
}

/// Reads a store back from the backing file's text, if the text is exactly
/// an encoded, invariant-respecting store.
pub fn decode(s: &str) -> (r: Option<Data>)
    ensures
        r matches Some(d) ==> sp_decode(s@) == Some(d@),
        r is None ==> sp_decode(s@) is None,
{
    let len = s.unicode_len();
    let (nid, i1) = match parse_range(s, len, 0, 0, u32::MAX as u64) {
        None => return None,
        Some(p) => p,
    };
    let i2 = match expect_char(s, len, i1, '\n') {
        None => return None,
        Some(j) => j,
    };
    let (tc, i3) = match parse_range(s, len, i2, 0, u32::MAX as u64) {
        None => return None,
        Some(p) => p,
    };
    let i4 = match expect_char(s, len, i3, '\n') {
        None => return None,
        Some(j) => j,
    };
    let (tasks, i5) = match parse_tasks(s, len, i4, tc) {
        None => return None,
        Some(p) => p,
    };
    let (lc, i6) = match parse_range(s, len, i5, 0, u32::MAX as u64) {
        None => return None,
        Some(p) => p,
    };
    let i7 = match expect_char(s, len, i6, '\n') {
        None => return None,
        Some(j) => j,
    };
    let (completion, i8) = match parse_logs(s, len, i7, lc) {
        None => return None,
        Some(p) => p,
    };
    if i8 != len {
        return None;
    }
    let data = Data { next_id: nid as u32, tasks, completion };
    if check_wf(&data) {
        Some(data)
    } else {
        None
    }
}

// ---------------------------------------------------------------------------
// Round trip: parsing an encoded store gives the store back
// ---------------------------------------------------------------------------
/// Index-wise image of a segment sitting inside `s` at `i`.
spec fn seg_at(s: Seq<char>, i: int, x: Seq<char>) -> bool {
    &&& 0 <= i
    &&& i + x.len() <= s.len()
    &&& forall|k: int| 0 <= k < x.len() ==> s[i + k] == #[trigger] x[k]
}

proof fn lemma_seg_index(s: Seq<char>, i: int, x: Seq<char>, k: int)
    requires
        seg_at(s, i, x),
        0 <= k < x.len(),
    ensures
        s[i + k] == x[k],
{
    assert(s[i + k] == x[k]);
}

proof fn lemma_seg_split(s: Seq<char>, i: int, x: Seq<char>, y: Seq<char>)
    requires
        seg_at(s, i, x + y),
    ensures
        seg_at(s, i, x),
        seg_at(s, i + x.len() as int, y),
{
    assert forall|k: int| 0 <= k < x.len() implies s[i + k] == #[trigger] x[k] by {
        assert(s[i + k] == (x + y)[k]);
    }
    assert forall|k: int| 0 <= k < y.len() implies s[i + x.len() + k] == #[trigger] y[k] by {
        assert(s[i + (x.len() + k)] == (x + y)[x.len() + k]);
    }
}

proof fn lemma_seg_subrange(s: Seq<char>, i: int, x: Seq<char>)
    requires
        seg_at(s, i, x),
    ensures
        s.subrange(i, i + x.len() as int) == x,
{
    assert(s.subrange(i, i + x.len() as int) =~= x) by {
        assert forall|k: int| 0 <= k < x.len() implies s.subrange(i, i + x.len() as int)[k]
            == x[k] by {
            assert(s[i + k] == x[k]);
        }
    }
}

proof fn lemma_rt_num(s: Seq<char>, i: int, n: nat, w: nat)
    requires
        seg_at(s, i, pad_rep(n, w)),
        i + pad_rep(n, w).len() == s.len() || !is_digit(s[i + pad_rep(n, w).len() as int]),
    ensures
        sp_num(s, i) == Some((n, i + pad_rep(n, w).len() as int)),
{
    lemma_seg_subrange(s, i, pad_rep(n, w));
    lemma_parse_pad(s, i, n, w);
}

proof fn lemma_rt_day(s: Seq<char>, i: int, d: Day)
    requires
        d.wf(),
        seg_at(s, i, enc_day(d)),
        i + enc_day(d).len() == s.len() || !is_digit(s[i + enc_day(d).len() as int]),
    ensures
        sp_day(s, i) == Some((d, i + enc_day(d).len() as int)),
{
    let py = pad_rep(d.year as nat, 4);
    let pm = pad_rep(d.month as nat, 2);
    let pd = pad_rep(d.day as nat, 2);
    let e = enc_day(d);
    let p1 = i + py.len() as int;
    let p2 = p1 + 1;
    let p3 = p2 + pm.len() as int;
    let p4 = p3 + 1;
    let p5 = p4 + pd.len() as int;
    assert(e == (((py + seq!['-']) + pm) + seq!['-']) + pd);
    lemma_seg_split(s, i, ((py + seq!['-']) + pm) + seq!['-'], pd);
    lemma_seg_split(s, i, (py + seq!['-']) + pm, seq!['-']);
    lemma_seg_split(s, i, py + seq!['-'], pm);
    lemma_seg_split(s, i, py, seq!['-']);
    lemma_seg_index(s, p1, seq!['-'], 0);
    lemma_seg_index(s, p3, seq!['-'], 0);
    assert(s[p1] == '-');
    assert(s[p3] == '-');
    lemma_rt_num(s, i, d.year as nat, 4);
    lemma_rt_num(s, p2, d.month as nat, 2);
    lemma_rt_num(s, p4, d.day as nat, 2);
    assert(sp_range(s, i, 0, 9999) == Some((d.year as nat, p1)));
    assert(sp_lit(s, p1, '-') == Some(p2));
    assert(sp_range(s, p2, 1, 12) == Some((d.month as nat, p3)));
    assert(sp_lit(s, p3, '-') == Some(p4));
    assert(sp_range(s, p4, 1, 31) == Some((d.day as nat, p5)));
    assert(sp_day(s, i) == Some((d, p5)));
}

proof fn lemma_rt_task(s: Seq<char>, i: int, t: TaskModel)
    requires
        t.name.len() <= u32::MAX,
        seg_at(s, i, enc_task(t)),
    ensures
        sp_task(s, i) == Some((t, i + enc_task(t).len() as int)),
{
    let di = dec_rep(t.id as nat);
    let dl = dec_rep(t.name.len());
    let e = enc_task(t);
    let p1 = i + di.len() as int;
    let p2 = p1 + 1;
    let p3 = p2 + dl.len() as int;
    let p4 = p3 + 1;
    let p5 = p4 + t.name.len() as int;
    let p6 = p5 + 1;
    assert(e == ((((di + seq![' ']) + dl) + seq![' ']) + t.name) + seq!['\n']);
    lemma_seg_split(s, i, (((di + seq![' ']) + dl) + seq![' ']) + t.name, seq!['\n']);
    lemma_seg_split(s, i, ((di + seq![' ']) + dl) + seq![' '], t.name);
    lemma_seg_split(s, i, (di + seq![' ']) + dl, seq![' ']);
    lemma_seg_split(s, i, di + seq![' '], dl);
    lemma_seg_split(s, i, di, seq![' ']);
    lemma_seg_index(s, p1, seq![' '], 0);
    lemma_seg_index(s, p3, seq![' '], 0);
    lemma_seg_index(s, p5, seq!['\n'], 0);
    assert(s[p1] == ' ');
    assert(s[p3] == ' ');
    assert(s[p5] == '\n');
    assert(pad_rep(t.id as nat, 0) == di);
    assert(pad_rep(t.name.len(), 0) == dl);
    lemma_rt_num(s, i, t.id as nat, 0);
    lemma_rt_num(s, p2, t.name.len(), 0);
    assert(sp_range(s, i, 0, u32::MAX as nat) == Some((t.id as nat, p1)));
    assert(sp_lit(s, p1, ' ') == Some(p2));
    assert(sp_range(s, p2, 0, u32::MAX as nat) == Some((t.name.len(), p3)));
    assert(sp_lit(s, p3, ' ') == Some(p4));
    assert(p4 + t.name.len() <= s.len());
    assert(s.subrange(p4, p5) == t.name) by {
        lemma_seg_subrange(s, p4, t.name);
    }
    assert(sp_lit(s, p5, '\n') == Some(p6));
    assert(sp_task(s, i) matches Some(q) && q.0 =~= t && q.1 == p6);
    assert(sp_task(s, i) == Some((t, p6)));
}

proof fn lemma_rt_tasks(s: Seq<char>, i: int, ts: Seq<TaskModel>)
    requires
        seg_at(s, i, enc_tasks(ts)),
        forall|k: int| 0 <= k < ts.len() ==> (#[trigger] ts[k]).name.len() <= u32::MAX,
    ensures
        sp_tasks(s, i, ts.len()) == Some((ts, i + enc_tasks(ts).len() as int)),
    decreases ts.len(),
{
    if ts.len() == 0 {
        assert(ts =~= Seq::<TaskModel>::empty());
    } else {
        let e0 = enc_task(ts[0]);
        assert(enc_tasks(ts) == e0 + enc_tasks(ts.drop_first()));
        lemma_seg_split(s, i, e0, enc_tasks(ts.drop_first()));
        lemma_rt_task(s, i, ts[0]);
        lemma_rt_tasks(s, i + e0.len() as int, ts.drop_first());
        assert(seq![ts[0]] + ts.drop_first() =~= ts);
        assert(sp_tasks(s, i, ts.len()) == Some((ts, i + enc_tasks(ts).len() as int)));
    }
}

proof fn lemma_rt_ids(s: Seq<char>, i: int, ids: Seq<u32>)
    requires
        seg_at(s, i, enc_ids(ids)),
        i + enc_ids(ids).len() == s.len() || !is_digit(s[i + enc_ids(ids).len() as int]),
    ensures
        sp_ids(s, i, ids.len()) == Some((ids, i + enc_ids(ids).len() as int)),
    decreases ids.len(),
{
    if ids.len() == 0 {
        assert(ids =~= Seq::<u32>::empty());
    } else {
        let d0 = dec_rep(ids[0] as nat);
        let rest = enc_ids(ids.drop_first());
        assert(enc_ids(ids) == (seq![' '] + d0) + rest);
        lemma_seg_split(s, i, seq![' '] + d0, rest);
        lemma_seg_split(s, i, seq![' '], d0);
        lemma_seg_index(s, i, seq![' '], 0);
        assert(s[i + 0] == ' ');
        assert(s[i] == ' ');
        let p1 = i + 1;
        let p2 = p1 + d0.len() as int;
        if rest.len() > 0 {
            assert(rest == (seq![' '] + dec_rep(ids.drop_first()[0] as nat)) + enc_ids(
                ids.drop_first().drop_first(),
            ));
            assert(rest[0] == ' ') by {
                assert(rest[0] == (seq![' '] + dec_rep(ids.drop_first()[0] as nat))[0]);
                assert((seq![' '] + dec_rep(ids.drop_first()[0] as nat))[0] == seq![' '][0]);
            }
            lemma_seg_index(s, p2, rest, 0);
            assert(s[p2] == ' ');
        }
        assert(pad_rep(ids[0] as nat, 0) == d0);
        lemma_rt_num(s, p1, ids[0] as nat, 0);
        assert(sp_lit(s, i, ' ') == Some(p1));
        assert(sp_range(s, p1, 0, u32::MAX as nat) == Some((ids[0] as nat, p2)));
        lemma_rt_ids(s, p2, ids.drop_first());
        assert(seq![ids[0]] + ids.drop_first() =~= ids);
        assert(sp_ids(s, i, ids.len()) == Some((ids, i + enc_ids(ids).len() as int)));
    }
}

proof fn lemma_rt_log(s: Seq<char>, i: int, l: LogModel)
    requires
        l.day.wf(),
        l.ids.len() <= u32::MAX,
        seg_at(s, i, enc_log(l)),
    ensures
        sp_log(s, i) == Some((l, i + enc_log(l).len() as int)),
{
    let ed = enc_day(l.day);
    let dc = dec_rep(l.ids.len());
    let ei = enc_ids(l.ids);
    let e = enc_log(l);
    let p1 = i + ed.len() as int;
    let p2 = p1 + 1;
    let p3 = p2 + dc.len() as int;
    let p4 = p3 + ei.len() as int;
    let p5 = p4 + 1;
    assert(e == (((ed + seq![' ']) + dc) + ei) + seq!['\n']);
    lemma_seg_split(s, i, ((ed + seq![' ']) + dc) + ei, seq!['\n']);
    lemma_seg_split(s, i, (ed + seq![' ']) + dc, ei);
    lemma_seg_split(s, i, ed + seq![' '], dc);
    lemma_seg_split(s, i, ed, seq![' ']);
    lemma_seg_index(s, p1, seq![' '], 0);
    lemma_seg_index(s, p4, seq!['\n'], 0);
    assert(s[p1] == ' ');
    assert(s[p4] == '\n');
    lemma_rt_day(s, i, l.day);
    assert(sp_lit(s, p1, ' ') == Some(p2));
    if ei.len() > 0 {
        assert(ei == (seq![' '] + dec_rep(l.ids[0] as nat)) + enc_ids(l.ids.drop_first()));
        assert(ei[0] == ' ') by {
            assert(ei[0] == (seq![' '] + dec_rep(l.ids[0] as nat))[0]);
            assert((seq![' '] + dec_rep(l.ids[0] as nat))[0] == seq![' '][0]);
        }
        lemma_seg_index(s, p3, ei, 0);
        assert(s[p3] == ' ');
    } else {
        assert(p3 == p4);
        assert(s[p3] == '\n');
    }
    assert(pad_rep(l.ids.len(), 0) == dc);
    lemma_rt_num(s, p2, l.ids.len(), 0);
    assert(sp_range(s, p2, 0, u32::MAX as nat) == Some((l.ids.len(), p3)));
    lemma_rt_ids(s, p3, l.ids);
    assert(sp_lit(s, p4, '\n') == Some(p5));
    assert(sp_log(s, i) matches Some(q) && q.0 =~= l && q.1 == p5);
    assert(sp_log(s, i) == Some((l, p5)));
}

proof fn lemma_rt_logs(s: Seq<char>, i: int, ls: Seq<LogModel>)
    requires
        seg_at(s, i, enc_logs(ls)),
        forall|k: int| 0 <= k < ls.len() ==> (#[trigger] ls[k]).day.wf() && ls[k].ids.len()
            <= u32::MAX,
    ensures
        sp_logs(s, i, ls.len()) == Some((ls, i + enc_logs(ls).len() as int)),
    decreases ls.len(),
{
    if ls.len() == 0 {
        assert(ls =~= Seq::<LogModel>::empty());
    } else {
        let e0 = enc_log(ls[0]);
        assert(enc_logs(ls) == e0 + enc_logs(ls.drop_first()));
        lemma_seg_split(s, i, e0, enc_logs(ls.drop_first()));
        lemma_rt_log(s, i, ls[0]);
        lemma_rt_logs(s, i + e0.len() as int, ls.drop_first());
        assert(seq![ls[0]] + ls.drop_first() =~= ls);
        assert(sp_logs(s, i, ls.len()) == Some((ls, i + enc_logs(ls).len() as int)));
    }
}

/// Law: the file format round-trips. Parsing the encoding of any
/// well-formed store yields exactly that store: the same next ID, the same
/// task list in the same order, and the same day records.
pub proof fn lemma_round_trip(m: DataModel)
    requires
        m.wf(),
        m.tasks.len() <= u32::MAX,
        m.logs.len() <= u32::MAX,
        forall|k: int| 0 <= k < m.tasks.len() ==> (#[trigger] m.tasks[k]).name.len() <= u32::MAX,
        forall|k: int| 0 <= k < m.logs.len() ==> (#[trigger] m.logs[k]).ids.len() <= u32::MAX,
    ensures
        sp_decode(enc_model(m)) == Some(m),
{
    let s = enc_model(m);
    let dn = dec_rep(m.next_id as nat);
    let dt = dec_rep(m.tasks.len());
    let et = enc_tasks(m.tasks);
    let dl = dec_rep(m.logs.len());
    let el = enc_logs(m.logs);
    let p1 = dn.len() as int;
    let p2 = p1 + 1;
    let p3 = p2 + dt.len() as int;
    let p4 = p3 + 1;
    let p5 = p4 + et.len() as int;
    let p6 = p5 + dl.len() as int;
    let p7 = p6 + 1;
    let p8 = p7 + el.len() as int;
    assert(s == ((((((dn + seq!['\n']) + dt) + seq!['\n']) + et) + dl) + seq!['\n']) + el);
    assert(seg_at(s, 0, s)) by {
        assert(forall|k: int| 0 <= k < s.len() ==> s[0 + k] == #[trigger] s[k]);
    }
    lemma_seg_split(s, 0, (((((dn + seq!['\n']) + dt) + seq!['\n']) + et) + dl) + seq!['\n'], el);
    lemma_seg_split(s, 0, ((((dn + seq!['\n']) + dt) + seq!['\n']) + et) + dl, seq!['\n']);
    lemma_seg_split(s, 0, (((dn + seq!['\n']) + dt) + seq!['\n']) + et, dl);
    lemma_seg_split(s, 0, ((dn + seq!['\n']) + dt) + seq!['\n'], et);
    lemma_seg_split(s, 0, (dn + seq!['\n']) + dt, seq!['\n']);
    lemma_seg_split(s, 0, dn, seq!['\n']);
    lemma_seg_index(s, p1, seq!['\n'], 0);
    lemma_seg_index(s, p3, seq!['\n'], 0);
    lemma_seg_index(s, p6, seq!['\n'], 0);
    assert(s[p1] == '\n');
    assert(s[p3] == '\n');
    assert(s[p6] == '\n');
    assert(pad_rep(m.next_id as nat, 0) == dn);
    assert(pad_rep(m.tasks.len(), 0) == dt);
    assert(pad_rep(m.logs.len(), 0) == dl);
    lemma_rt_num(s, 0, m.next_id as nat, 0);
    assert(sp_range(s, 0, 0, u32::MAX as nat) == Some((m.next_id as nat, p1)));
    assert(sp_lit(s, p1, '\n') == Some(p2));
    lemma_rt_num(s, p2, m.tasks.len(), 0);
    assert(sp_range(s, p2, 0, u32::MAX as nat) == Some((m.tasks.len(), p3)));
    assert(sp_lit(s, p3, '\n') == Some(p4));
    lemma_rt_tasks(s, p4, m.tasks);
    assert(sp_tasks(s, p4, m.tasks.len()) == Some((m.tasks, p5)));
    lemma_rt_num(s, p5, m.logs.len(), 0);
    assert(sp_range(s, p5, 0, u32::MAX as nat) == Some((m.logs.len(), p6)));
    assert(sp_lit(s, p6, '\n') == Some(p7));
    assert(forall|k: int| 0 <= k < m.logs.len() ==> (#[trigger] m.logs[k]).day.wf()
        && m.logs[k].ids.len() <= u32::MAX) by {
        assert(forall|k: int| 0 <= k < m.logs.len() ==> (#[trigger] m.logs[k]).wf());
    }
    lemma_rt_logs(s, p7, m.logs);
    assert(sp_logs(s, p7, m.logs.len()) == Some((m.logs, p8)));
    assert(p8 == s.len());
    assert(sp_parsed(s) matches Some(q) && q =~= m);
    assert(sp_decode(s) == Some(m));
}

} // verus!
