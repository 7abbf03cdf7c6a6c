//! The manifest: an append-only text log of `add <id>` and `remove <id>`
//! lines that records which tables are live. Formatting the records and
//! replaying the log are the store's logic; appending to the file, syncing
//! it and maintaining the `CURRENT` pointer are the caller's side.

use vstd::prelude::*;

verus! {

/// A byte that separates tokens within a line.
pub open spec fn is_ws(c: u8) -> bool {
    c == 32 || c == 9 || c == 13
}

/// A decimal digit's value, or none.
pub open spec fn digit_of(c: u8) -> Option<int> {
    if 48 <= c <= 57 {
        Some(c - 48)
    } else {
        None
    }
}

/// The number a digit string denotes, most significant first.
pub open spec fn dec_value(s: Seq<u8>) -> int
    decreases s.len(),
{
    if s.len() == 0 {
        0
    } else {
        dec_value(s.drop_last()) * 10 + (s.last() - 48)
    }
}

/// Digits only, at least one.
pub open spec fn all_digits(s: Seq<u8>) -> bool {
    s.len() > 0 && forall|i: int| 0 <= i < s.len() ==> 48 <= #[trigger] s[i] <= 57
}

/// The identifier a token denotes, when it is a plain decimal number that
/// fits; anything else is not an identifier and its line is ignored.
pub open spec fn token_id(s: Seq<u8>) -> Option<u64> {
    if all_digits(s) && dec_value(s) <= u64::MAX {
        Some(dec_value(s) as u64)
    } else {
        None
    }
}

/// The decimal digits of `n`, most significant first.
pub open spec fn dec_digits(n: u64) -> Seq<u8>
    decreases n,
{
    if n < 10 {
        seq![(48 + n) as u8]
    } else {
        dec_digits((n / 10) as u64).push((48 + n % 10) as u8)
    }
}

/// Offset of the first newline at or after `i`, or the end.
pub open spec fn line_end(b: Seq<u8>, i: int) -> int
    decreases b.len() - i,
{
    if i < 0 || i >= b.len() {
        i
    } else if b[i] == 10 {
        i
    } else {
        line_end(b, i + 1)
    }
}

/// Offset of the first token separator at or after `i`, or the end, never
/// crossing a newline (callers pass a single line).
pub open spec fn token_end(b: Seq<u8>, i: int) -> int
    decreases b.len() - i,
{
    if i < 0 || i >= b.len() {
        i
    } else if is_ws(b[i]) {
        i
    } else {
        token_end(b, i + 1)
    }
}

/// The tokens of one line, separated by blanks.
pub open spec fn tokens_of(line: Seq<u8>, i: int) -> Seq<Seq<u8>>
    decreases line.len() - i,
{
    if i < 0 || i >= line.len() {
        Seq::empty()
    } else if is_ws(line[i]) {
        tokens_of(line, i + 1)
    } else {
        let e = token_end(line, i);
        seq![line.subrange(i, e)] + tokens_of(
            line,
            if e <= i {
                i + 1
            } else if e > line.len() {
                line.len() as int
            } else {
                e
            },
        )
    }
}

/// The event one line records: `add <id>`, `remove <id>`, or nothing.
/// Unrecognized lines, and lines whose identifier is not a plain decimal
/// number, are ignored.
pub open spec fn line_event(line: Seq<u8>) -> Option<(bool, u64)> {
    let ts = tokens_of(line, 0);
    if ts.len() == 2 {
        match token_id(ts[1]) {
            Some(id) => {
                if ts[0] == seq![97u8, 100u8, 100u8] {
                    Some((true, id))
                } else if ts[0] == seq![114u8, 101u8, 109u8, 111u8, 118u8, 101u8] {
                    Some((false, id))
                } else {
                    None
                }
            },
            None => None,
        }
    } else {
        None
    }
}

/// Removes the first occurrence of `id`.
pub open spec fn remove_first(s: Seq<u64>, id: u64) -> Seq<u64>
    decreases s.len(),
{
    if s.len() == 0 {
        s
    } else if s[0] == id {
        s.drop_first()
    } else {
        seq![s[0]] + remove_first(s.drop_first(), id)
    }
}

/// One event applied to the active set.
pub open spec fn apply_line(line: Seq<u8>, active: Seq<u64>) -> Seq<u64> {
    match line_event(line) {
        Some((true, id)) => active.push(id),
        Some((false, id)) => remove_first(active, id),
        None => active,
    }
}

/// The active set after replaying the log from offset `i`.
pub open spec fn replay_from(b: Seq<u8>, i: int, active: Seq<u64>) -> Seq<u64>
    decreases b.len() - i,
{
    if i < 0 || i >= b.len() {
        active
    } else {
        let e = line_end(b, i);
        let next = if e <= i {
            i + 1
        } else if e < b.len() {
            e + 1
        } else {
            b.len() as int
        };
        replay_from(b, next, apply_line(b.subrange(i, e), active))
    }
}

/// The table identifiers live after replaying a whole manifest, in the
/// order their `add` records appeared.
pub open spec fn manifest_replay(b: Seq<u8>) -> Seq<u64> {
    replay_from(b, 0, Seq::empty())
}

/// One `add` record's line, newline included.
pub open spec fn add_record(id: u64) -> Seq<u8> {
    seq![97u8, 100u8, 100u8, 32u8] + dec_digits(id) + seq![10u8]
}

/// One `remove` record's line, newline included.
pub open spec fn remove_record(id: u64) -> Seq<u8> {
    seq![114u8, 101u8, 109u8, 111u8, 118u8, 101u8, 32u8] + dec_digits(id) + seq![10u8]
}

/// Renders `id` in decimal.
pub fn format_id(id: u64) -> (r: Vec<u8>)
    ensures
        r@ == dec_digits(id),
{
    let mut rev: Vec<u8> = Vec::new();
    let mut n = id;
    loop
        invariant_except_break
            dec_digits(id) == dec_digits(n) + rev@.reverse(),
        ensures
            dec_digits(id) == rev@.reverse(),
        decreases n,
    {
        let d = (n % 10) as u8;
        let n2 = n / 10;
        proof {
            let ghost rv0 = rev@;
            assert(rv0.push((48 + d) as u8).reverse() =~= seq![(48 + d) as u8] + rv0.reverse());
            if n2 > 0 {
                assert(dec_digits(n) == dec_digits(n2).push((48 + n % 10) as u8));
                assert(dec_digits(n2).push((48 + n % 10) as u8) =~= dec_digits(n2) + seq![
                    (48 + n % 10) as u8,
                ]);
                assert((dec_digits(n2) + seq![(48 + d) as u8]) + rv0.reverse() =~= dec_digits(n2)
                    + (seq![(48 + d) as u8] + rv0.reverse()));
            } else {
                assert(dec_digits(n) == seq![(48 + n) as u8]);
                assert(dec_digits(n) + rv0.reverse() =~= seq![(48 + d) as u8] + rv0.reverse());
            }
        }
        rev.push(48 + d);
        if n2 == 0 {
            break ;
        }
        n = n2;
    }
    let mut out: Vec<u8> = Vec::new();
    let mut i: usize = rev.len();
    while i > 0
        invariant
            i <= rev@.len(),
            out@ == rev@.subrange(i as int, rev@.len() as int).reverse(),
        decreases i,
    {
        i = i - 1;
        out.push(rev[i]);
        proof {
            assert(out@ =~= rev@.subrange(i as int, rev@.len() as int).reverse());
        }
    }
    proof {
        assert(rev@.subrange(0, rev@.len() as int) =~= rev@);
    }
    out
}

/// The `add <id>` line to append for a newly durable table.
pub fn record_add_table(id: u64) -> (r: Vec<u8>)
    ensures
        r@ == add_record(id),
{
    let mut out: Vec<u8> = Vec::new();
    out.push(97);
    out.push(100);
    out.push(100);
    out.push(32);
    let digits = format_id(id);
    crate::wire::push_bytes(&mut out, digits.as_slice());
    out.push(10);
    proof {
        assert(out@ =~= add_record(id));
    }
    out
}

/// The `remove <id>` line to append when a table leaves the active set.
pub fn record_remove_table(id: u64) -> (r: Vec<u8>)
    ensures
        r@ == remove_record(id),
{
    let mut out: Vec<u8> = Vec::new();
    out.push(114);
    out.push(101);
    out.push(109);
    out.push(111);
    out.push(118);
    out.push(101);
    out.push(32);
    let digits = format_id(id);
    crate::wire::push_bytes(&mut out, digits.as_slice());
    out.push(10);
    proof {
        assert(out@ =~= remove_record(id));
    }
    out
}

/// Digit prefixes denote no more than the whole number.
proof fn lemma_dec_value_bounds(s: Seq<u8>, p: int)
    requires
        forall|i: int| 0 <= i < s.len() ==> 48 <= #[trigger] s[i] <= 57,
        0 <= p <= s.len(),
    ensures
        0 <= dec_value(s.subrange(0, p)) <= dec_value(s),
    decreases s.len() - p,
{
    if p == s.len() {
        assert(s.subrange(0, p) =~= s);
        lemma_dec_value_nonneg(s);
    } else {
        lemma_dec_value_bounds(s, p + 1);
        lemma_dec_value_nonneg(s.subrange(0, p));
        assert(s.subrange(0, p + 1).drop_last() =~= s.subrange(0, p));
        assert(dec_value(s.subrange(0, p + 1)) == dec_value(s.subrange(0, p)) * 10 + (s[p] - 48));
    }
}

proof fn lemma_dec_value_nonneg(s: Seq<u8>)
    requires
        forall|i: int| 0 <= i < s.len() ==> 48 <= #[trigger] s[i] <= 57,
    ensures
        dec_value(s) >= 0,
    decreases s.len(),
{
    if s.len() > 0 {
        assert forall|i: int| 0 <= i < s.drop_last().len() implies 48 <= #[trigger] s.drop_last()[i]
            <= 57 by {
            assert(s.drop_last()[i] == s[i]);
        }
        lemma_dec_value_nonneg(s.drop_last());
    }
}

/// Parses a plain decimal `u64`, exactly as a manifest line's identifier
/// token is read.
pub fn parse_id(s: &[u8]) -> (r: Option<u64>)
    ensures
        r == token_id(s@),
{
    let n = s.len();
    if n == 0 {
        return None;
    }
    let mut acc: u64 = 0;
    let mut p: usize = 0;
    while p < n
        invariant
            p <= n,
            n == s@.len(),
            forall|i: int| 0 <= i < p ==> 48 <= #[trigger] s@[i] <= 57,
            acc == dec_value(s@.subrange(0, p as int)),
        decreases n - p,
    {
        let c = s[p];
        if c < 48 || c > 57 {
            proof {
                assert(!all_digits(s@));
            }
            return None;
        }
        let d = (c - 48) as u64;
        let next = match acc.checked_mul(10) {
            Some(m) => m.checked_add(d),
            None => None,
        };
        proof {
            assert(s@.subrange(0, p + 1).drop_last() =~= s@.subrange(0, p as int));
            assert(dec_value(s@.subrange(0, p + 1)) == acc * 10 + d);
        }
        match next {
            Some(v) => {
                acc = v;
            },
            None => {
                proof {
                    if all_digits(s@) {
                        lemma_dec_value_bounds(s@, p + 1);
                        assert(dec_value(s@) >= dec_value(s@.subrange(0, p + 1)));
                        assert(dec_value(s@) > u64::MAX);
                    }
                }
                return None;
            },
        }
        p = p + 1;
    }
    proof {
        assert(s@.subrange(0, n as int) =~= s@);
        assert(all_digits(s@));
    }
    Some(acc)
}

/// Replays a manifest: `add` appends the identifier, `remove` drops its
/// first occurrence, anything else is ignored; the result is the active
/// table list in order.
#[verifier::rlimit(100)]
#[verifier::spinoff_prover]
pub fn replay_manifest(bytes: &[u8]) -> (r: Vec<u64>)
    ensures
        r@ == manifest_replay(bytes@),
{
    let blen = bytes.len();
    let mut active: Vec<u64> = Vec::new();
    let mut i: usize = 0;
    proof {
        assert(active@ =~= Seq::<u64>::empty());
    }
    while i < blen
        invariant
            i <= blen,
            blen == bytes@.len(),
            manifest_replay(bytes@) == replay_from(bytes@, i as int, active@),
        decreases blen - i,
    {
        let mut e: usize = i;
        while e < blen && bytes[e] != 10
            invariant
                i <= e <= blen,
                blen == bytes@.len(),
                line_end(bytes@, i as int) == line_end(bytes@, e as int),
            decreases blen - e,
        {
            e = e + 1;
        }
        proof {
            assert(line_end(bytes@, e as int) == e as int);
        }
        let line = &bytes[i..e];
        let ghost a_old = active@;
        match line_event_exec(line) {
            Some((true, id)) => {
                active.push(id);
            },
            Some((false, id)) => {
                let m = active.len();
                let mut w: usize = 0;
                let mut stop = false;
                while !stop && w < m
                    invariant
                        w <= m,
                        m == active@.len(),
                        active@ == a_old,
                        forall|x: int| 0 <= x < w ==> #[trigger] a_old[x] != id,
                        stop ==> w < m && a_old[w as int] == id,
                    decreases
                            (if stop {
                                0int
                            } else {
                                1int
                            }),
                            m - w,
                {
                    if active[w] == id {
                        stop = true;
                    } else {
                        w = w + 1;
                    }
                }
                if stop {
                    proof {
                        lemma_remove_first_at(a_old, id, w as int);
                    }
                    active.remove(w);
                    proof {
                        assert(active@ =~= a_old.subrange(0, w as int) + a_old.subrange(
                            w + 1,
                            a_old.len() as int,
                        ));
                    }
                } else {
                    proof {
                        lemma_remove_first_none(a_old, id);
                    }
                }
            },
            None => {},
        }
        proof {
            assert(line@ == bytes@.subrange(i as int, e as int));
            assert(active@ == apply_line(bytes@.subrange(i as int, e as int), a_old));
            assert(replay_from(bytes@, i as int, a_old) == replay_from(
                bytes@,
                if e <= i {
                    i + 1
                } else if e < blen {
                    e as int + 1
                } else {
                    blen as int
                },
                active@,
            ));
        }
        i = if e < blen {
            e + 1
        } else {
            e
        };
    }
    active
}

/// Removing at the first matching index is `remove_first`.
proof fn lemma_remove_first_at(s: Seq<u64>, id: u64, w: int)
    requires
        0 <= w < s.len(),
        s[w] == id,
        forall|x: int| 0 <= x < w ==> #[trigger] s[x] != id,
    ensures
        remove_first(s, id) == s.subrange(0, w) + s.subrange(w + 1, s.len() as int),
    decreases w,
{
    if w == 0 {
        assert(s.subrange(0, 0) =~= Seq::<u64>::empty());
        assert(remove_first(s, id) =~= s.subrange(0, 0) + s.subrange(1, s.len() as int)) by {
            assert(s.drop_first() =~= s.subrange(1, s.len() as int));
        }
    } else {
        assert forall|x: int| 0 <= x < w - 1 implies #[trigger] s.drop_first()[x] != id by {
            assert(s.drop_first()[x] == s[x + 1]);
        }
        assert(s.drop_first()[w - 1] == s[w]);
        lemma_remove_first_at(s.drop_first(), id, w - 1);
        assert(s.drop_first().subrange(0, w - 1) =~= s.subrange(1, w));
        assert(s.drop_first().subrange(w, s.drop_first().len() as int) =~= s.subrange(
            w + 1,
            s.len() as int,
        ));
        assert(remove_first(s, id) =~= s.subrange(0, w) + s.subrange(w + 1, s.len() as int));
    }
}

/// With no occurrence there is nothing to remove.
proof fn lemma_remove_first_none(s: Seq<u64>, id: u64)
    requires
        forall|x: int| 0 <= x < s.len() ==> #[trigger] s[x] != id,
    ensures
        remove_first(s, id) == s,
    decreases s.len(),
{
    if s.len() > 0 {
        lemma_remove_first_none(s.drop_first(), id);
        assert(remove_first(s, id) =~= s);
    }
}

/// Reads one line's event, exactly as the replay spec does.
fn line_event_exec(line: &[u8]) -> (r: Option<(bool, u64)>)
    ensures
        r == line_event(line@),
{
    let n = line.len();
    let mut toks: Vec<(usize, usize)> = Vec::new();
    let mut p: usize = 0;
    let ghost mut tokseq: Seq<Seq<u8>> = Seq::empty();
    proof {
        assert(tokens_of(line@, 0) =~= tokseq + tokens_of(line@, 0));
    }
    while p < n
        invariant
            p <= n,
            n == line@.len(),
            tokens_of(line@, 0) == tokseq + tokens_of(line@, p as int),
            toks@.len() == tokseq.len(),
            forall|x: int|
                0 <= x < toks@.len() ==> (#[trigger] toks@[x]).0 <= toks@[x].1 <= n && tokseq[x]
                    == line@.subrange(toks@[x].0 as int, toks@[x].1 as int),
        decreases n - p,
    {
        let c = line[p];
        if c == 32 || c == 9 || c == 13 {
            proof {
                assert(tokens_of(line@, p as int) == tokens_of(line@, p + 1));
            }
            p = p + 1;
        } else {
            let mut q: usize = p + 1;
            proof {
                assert(token_end(line@, p as int) == token_end(line@, p + 1));
            }
            while q < n && line[q] != 32 && line[q] != 9 && line[q] != 13
                invariant
                    p < q <= n,
                    n == line@.len(),
                    token_end(line@, p as int) == token_end(line@, q as int),
                decreases n - q,
            {
                q = q + 1;
            }
            proof {
                assert(token_end(line@, q as int) == q as int);
                assert(tokens_of(line@, p as int) == seq![
                    line@.subrange(p as int, q as int),
                ] + tokens_of(line@, q as int));
                tokseq = tokseq.push(line@.subrange(p as int, q as int));
                assert(tokens_of(line@, 0) =~= tokseq + tokens_of(line@, q as int));
            }
            toks.push((p, q));
            p = q;
        }
    }
    proof {
        assert(tokens_of(line@, n as int) =~= Seq::<Seq<u8>>::empty());
        assert(tokens_of(line@, 0) =~= tokseq);
    }
    if toks.len() != 2 {
        return None;
    }
    let (p0, q0) = (toks[0].0, toks[0].1);
    let (p1, q1) = (toks[1].0, toks[1].1);
    let id = match parse_id(&line[p1..q1]) {
        Some(id) => id,
        None => {
            return None;
        },
    };
    let w0 = &line[p0..q0];
    let is_add = w0.len() == 3 && w0[0] == 97 && w0[1] == 100 && w0[2] == 100;
    let is_remove = w0.len() == 6 && w0[0] == 114 && w0[1] == 101 && w0[2] == 109 && w0[3] == 111
        && w0[4] == 118 && w0[5] == 101;
    proof {
        if is_add {
            assert(w0@ =~= seq![97u8, 100u8, 100u8]);
        } else {
            assert(w0@ != seq![97u8, 100u8, 100u8]) by {
                if w0@ == seq![97u8, 100u8, 100u8] {
                    assert(w0@.len() == 3 && w0@[0] == 97 && w0@[1] == 100 && w0@[2] == 100);
                }
            }
        }
        if is_remove {
            assert(w0@ =~= seq![114u8, 101u8, 109u8, 111u8, 118u8, 101u8]);
        } else {
            assert(w0@ != seq![114u8, 101u8, 109u8, 111u8, 118u8, 101u8]) by {
                if w0@ == seq![114u8, 101u8, 109u8, 111u8, 118u8, 101u8] {
                    assert(w0@.len() == 6 && w0@[0] == 114 && w0@[1] == 101 && w0@[2] == 109
                        && w0@[3] == 111 && w0@[4] == 118 && w0@[5] == 101);
                }
            }
        }
    }
    if is_add {
        Some((true, id))
    } else if is_remove {
        Some((false, id))
    } else {
        None
    }
}

} // verus!
