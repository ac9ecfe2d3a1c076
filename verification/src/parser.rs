//! DIMACS CNF text parsing: comment lines starting with `c` are skipped, the
//! first remaining line must be a `p cnf <variables> <clauses>` header, and
//! each later non-comment line lists signed decimal literals terminated by
//! `0`. Every literal is validated against the declared variable count at
//! construction time, so a well-formed `Cnf` is the only thing this module
//! ever hands out.

use vstd::prelude::*;

use crate::{clause_in_bound, lit_in_bound, Clause, Cnf, Literal, Variable};
use vstd::string::StringSliceAdditionalSpecFns;

verus! {

/// The byte is an ASCII decimal digit.
pub open spec fn is_digit(b: u8) -> bool {
    48 <= b <= 57
}

/// The byte separates tokens inside a line: space, tab, or carriage
/// return.
pub open spec fn is_space(b: u8) -> bool {
    b == 32 || b == 9 || b == 13
}

/// The numeric value of one digit byte; bytes outside the digit range
/// count as zero.
pub open spec fn digit_val(b: u8) -> nat {
    if is_digit(b) {
        (b - 48) as nat
    } else {
        0
    }
}

/// The numeric value of a sequence of ASCII digit bytes, most significant
/// first.
pub open spec fn digits_val(s: Seq<u8>) -> nat
    decreases s.len(),
{
    if s.len() == 0 {
        0
    } else {
        digits_val(s.drop_last()) * 10 + digit_val(s.last())
    }
}

/// A digit string is worth at least as much as any of its prefixes.
proof fn lemma_digits_val_prefix(s: Seq<u8>, p: int)
    requires
        0 <= p <= s.len(),
    ensures
        digits_val(s) >= digits_val(s.take(p)),
    decreases s.len() - p,
{
    if p == s.len() {
        assert(s.take(p) =~= s);
    } else {
        lemma_digits_val_prefix(s, p + 1);
        assert(s.take(p + 1).drop_last() =~= s.take(p));
        assert(digits_val(s.take(p + 1)) == digits_val(s.take(p)) * 10 + digit_val(
            s.take(p + 1).last(),
        ));
        assert(digits_val(s.take(p)) * 10 >= digits_val(s.take(p)));
    }
}

/// Parse `bytes[start..end]` as an unsigned decimal number: defined
/// exactly when the range is non-empty, all digits, and the value fits in
/// 64 bits.
fn parse_u64(bytes: &[u8], start: usize, end: usize) -> (r: Option<u64>)
    requires
        start <= end <= bytes@.len(),
    ensures
        r == (if start < end && (forall|q: int| start <= q < end ==> is_digit(#[trigger] bytes@[q]))
            && digits_val(bytes@.subrange(start as int, end as int)) <= u64::MAX {
            Some(digits_val(bytes@.subrange(start as int, end as int)) as u64)
        } else {
            None::<u64>
        }),
{
    let ghost whole = bytes@.subrange(start as int, end as int);
    if start == end {
        return None;
    }
    let mut acc: u128 = 0;
    let mut p: usize = start;
    while p < end
        invariant
            start <= p <= end <= bytes@.len(),
            whole == bytes@.subrange(start as int, end as int),
            forall|q: int| start <= q < p ==> is_digit(#[trigger] bytes@[q]),
            acc as nat == digits_val(bytes@.subrange(start as int, p as int)),
            acc <= u64::MAX,
        decreases end - p,
    {
        let b = bytes[p];
        if b < 48 || b > 57 {
            return None;
        }
        proof {
            assert(bytes@.subrange(start as int, p as int + 1).drop_last() =~= bytes@.subrange(
                start as int,
                p as int,
            ));
            assert(bytes@.subrange(start as int, p as int + 1).last() == bytes@[p as int]);
        }
        let d = (b - 48) as u128;
        acc = acc * 10 + d;
        if acc > u64::MAX as u128 {
            proof {
                assert(acc as nat == digits_val(bytes@.subrange(start as int, p as int + 1)));
                assert(whole.take(p + 1 - start) =~= bytes@.subrange(start as int, p as int + 1));
                lemma_digits_val_prefix(whole, p + 1 - start);
                assert(digits_val(whole) > u64::MAX);
            }
            return None;
        }
        p = p + 1;
    }
    proof {
        assert(bytes@.subrange(start as int, p as int) =~= whole);
    }
    Some(acc as u64)
}

/// First index at or after `from` whose byte is not a token separator, or
/// `end`.
pub open spec fn skip_spaces_spec(s: Seq<u8>, from: int, end: int) -> int
    decreases end - from,
{
    if 0 <= from && from < end && end <= s.len() {
        if is_space(s[from]) {
            skip_spaces_spec(s, from + 1, end)
        } else {
            from
        }
    } else {
        end
    }
}

/// First index at or after `from` whose byte is a token separator, or
/// `end`.
pub open spec fn scan_token_spec(s: Seq<u8>, from: int, end: int) -> int
    decreases end - from,
{
    if 0 <= from && from < end && end <= s.len() {
        if is_space(s[from]) {
            from
        } else {
            scan_token_spec(s, from + 1, end)
        }
    } else {
        end
    }
}

/// What the two scans return: bounds, the run they skipped, and the byte
/// they stopped on.
proof fn lemma_scan_specs(s: Seq<u8>, from: int, end: int)
    requires
        0 <= from <= end <= s.len(),
    ensures
        from <= skip_spaces_spec(s, from, end) <= end,
        forall|q: int| from <= q < skip_spaces_spec(s, from, end) ==> is_space(#[trigger] s[q]),
        skip_spaces_spec(s, from, end) < end ==> !is_space(s[skip_spaces_spec(s, from, end)]),
        from <= scan_token_spec(s, from, end) <= end,
        forall|q: int| from <= q < scan_token_spec(s, from, end) ==> !is_space(#[trigger] s[q]),
        scan_token_spec(s, from, end) < end ==> is_space(s[scan_token_spec(s, from, end)]),
    decreases end - from,
{
    if from < end {
        lemma_scan_specs(s, from + 1, end);
    }
}

/// First index at or after `from` whose byte is not a token separator.
fn skip_spaces(bytes: &[u8], from: usize, end: usize) -> (r: usize)
    requires
        from <= end <= bytes@.len(),
    ensures
        from <= r <= end,
        r == skip_spaces_spec(bytes@, from as int, end as int),
        r < end ==> !is_space(bytes@[r as int]),
    decreases end - from,
{
    let mut p = from;
    while p < end
        invariant
            from <= p <= end <= bytes@.len(),
            skip_spaces_spec(bytes@, from as int, end as int) == skip_spaces_spec(
                bytes@,
                p as int,
                end as int,
            ),
        decreases end - p,
    {
        let b = bytes[p];
        if !(b == 32 || b == 9 || b == 13) {
            return p;
        }
        p = p + 1;
    }
    p
}

/// First index at or after `from` whose byte is a token separator; with a
/// non-separator at `from`, the scan makes progress.
fn scan_token(bytes: &[u8], from: usize, end: usize) -> (r: usize)
    requires
        from <= end <= bytes@.len(),
    ensures
        from <= r <= end,
        r == scan_token_spec(bytes@, from as int, end as int),
        from < end && !is_space(bytes@[from as int]) ==> r > from,
        r < end ==> is_space(bytes@[r as int]),
        forall|q: int| from <= q < r ==> !is_space(#[trigger] bytes@[q]),
    decreases end - from,
{
    let mut p = from;
    while p < end
        invariant
            from <= p <= end <= bytes@.len(),
            scan_token_spec(bytes@, from as int, end as int) == scan_token_spec(
                bytes@,
                p as int,
                end as int,
            ),
            forall|q: int| from <= q < p ==> !is_space(#[trigger] bytes@[q]),
        decreases end - p,
    {
        let b = bytes[p];
        if b == 32 || b == 9 || b == 13 {
            return p;
        }
        p = p + 1;
    }
    p
}

/// First newline at or after `pos`, or the end of the input.
pub open spec fn line_end_from(s: Seq<u8>, pos: int) -> int
    decreases s.len() - pos,
{
    if 0 <= pos && pos < s.len() {
        if s[pos] == 10 {
            pos
        } else {
            line_end_from(s, pos + 1)
        }
    } else {
        s.len() as int
    }
}

/// Where a line ends: after `pos`, before the input's end, with no newline
/// in between.
proof fn lemma_line_end_bounds(s: Seq<u8>, pos: int)
    requires
        0 <= pos <= s.len(),
    ensures
        pos <= line_end_from(s, pos) <= s.len(),
        forall|q: int| pos <= q < line_end_from(s, pos) ==> s[q] != 10,
        line_end_from(s, pos) < s.len() ==> s[line_end_from(s, pos)] == 10,
    decreases s.len() - pos,
{
    if pos < s.len() && s[pos] != 10 {
        lemma_line_end_bounds(s, pos + 1);
    }
}

/// The line's end with one trailing carriage return stripped.
pub open spec fn content_end_of(s: Seq<u8>, ls: int) -> int {
    let e = line_end_from(s, ls);
    if e > ls && s[e - 1] == 13 {
        e - 1
    } else {
        e
    }
}

/// Start of the line after the one at `pos`.
pub open spec fn next_line_pos(s: Seq<u8>, pos: int) -> int {
    let e = line_end_from(s, pos);
    if e < s.len() {
        e + 1
    } else {
        s.len() as int
    }
}

/// `ls` begins a line: the input's start or the position after a newline.
pub open spec fn is_line_start(s: Seq<u8>, ls: int) -> bool {
    0 <= ls < s.len() && (ls == 0 || s[ls - 1] == 10)
}

/// The line at `ls` is neither blank nor a comment.
pub open spec fn is_content_line(s: Seq<u8>, ls: int) -> bool {
    is_line_start(s, ls) && content_end_of(s, ls) > ls && s[ls] != 99
}

/// The bytes `s[from..to)` hold a decimal count that fits in 64 bits.
pub open spec fn num_token_ok(s: Seq<u8>, from: int, to: int) -> bool {
    &&& from < to
    &&& forall|q: int| from <= q < to ==> is_digit(#[trigger] s[q])
    &&& digits_val(s.subrange(from, to)) <= u64::MAX
}

/// The line `s[hs..he)` is a DIMACS header: tokens `p`, `cnf`, and two
/// well-formed counts, with a variable count this machine can index.
pub open spec fn header_ok(s: Seq<u8>, hs: int, he: int) -> bool {
    let t0 = skip_spaces_spec(s, hs, he);
    let t0e = scan_token_spec(s, t0, he);
    let t1 = skip_spaces_spec(s, t0e, he);
    let t1e = scan_token_spec(s, t1, he);
    let t2 = skip_spaces_spec(s, t1e, he);
    let t2e = scan_token_spec(s, t2, he);
    let t3 = skip_spaces_spec(s, t2e, he);
    let t3e = scan_token_spec(s, t3, he);
    &&& t0e - t0 == 1 && s[t0] == 112
    &&& t1e - t1 == 3 && s[t1] == 99 && s[t1 + 1] == 110 && s[t1 + 2] == 102
    &&& num_token_ok(s, t2, t2e)
    &&& digits_val(s.subrange(t2, t2e)) <= usize::MAX
    &&& num_token_ok(s, t3, t3e)
}

/// The variable count declared by the header line `s[hs..he)`.
pub open spec fn header_num_vars(s: Seq<u8>, hs: int, he: int) -> nat {
    let t0 = skip_spaces_spec(s, hs, he);
    let t0e = scan_token_spec(s, t0, he);
    let t1 = skip_spaces_spec(s, t0e, he);
    let t1e = scan_token_spec(s, t1, he);
    let t2 = skip_spaces_spec(s, t1e, he);
    let t2e = scan_token_spec(s, t2, he);
    digits_val(s.subrange(t2, t2e))
}

/// The token `s[ts..te)` is a signed decimal literal whose magnitude names
/// one of the `nv` declared variables.
pub open spec fn lit_token_ok(s: Seq<u8>, ts: int, te: int, nv: nat) -> bool {
    let ds = if s[ts] == 45 || s[ts] == 43 {
        ts + 1
    } else {
        ts
    };
    num_token_ok(s, ds, te) && 1 <= digits_val(s.subrange(ds, te)) && digits_val(
        s.subrange(ds, te),
    ) <= nv
}

/// Every literal token of the clause line `s[q..ce)` is well formed and in
/// range, up to a `0` terminator or the line's end.
pub open spec fn clause_line_ok(s: Seq<u8>, q: int, ce: int, nv: nat) -> bool
    decreases ce - q,
    via clause_line_ok_dec
{
    if 0 <= q && q <= ce && ce <= s.len() {
        let ts = skip_spaces_spec(s, q, ce);
        let te = scan_token_spec(s, ts, ce);
        if te <= ts {
            true
        } else if te - ts == 1 && s[ts] == 48 {
            true
        } else {
            lit_token_ok(s, ts, te, nv) && clause_line_ok(s, te, ce, nv)
        }
    } else {
        true
    }
}

#[via_fn]
proof fn clause_line_ok_dec(s: Seq<u8>, q: int, ce: int, nv: nat) {
    if 0 <= q && q <= ce && ce <= s.len() {
        lemma_scan_specs(s, q, ce);
        let ts = skip_spaces_spec(s, q, ce);
        lemma_scan_specs(s, ts, ce);
    }
}

/// Every non-blank, non-comment line at or after `pos` is a well-formed
/// clause line over `nv` variables.
pub open spec fn clause_lines_ok(s: Seq<u8>, pos: int, nv: nat) -> bool
    decreases s.len() - pos,
    via clause_lines_ok_dec
{
    if 0 <= pos && pos < s.len() {
        let ce = content_end_of(s, pos);
        let line_ok = if ce > pos && s[pos] != 99 {
            clause_line_ok(s, pos, ce, nv)
        } else {
            true
        };
        line_ok && clause_lines_ok(s, next_line_pos(s, pos), nv)
    } else {
        true
    }
}

#[via_fn]
proof fn clause_lines_ok_dec(s: Seq<u8>, pos: int, nv: nat) {
    if 0 <= pos && pos < s.len() {
        lemma_line_end_bounds(s, pos);
    }
}

/// The literal a token denotes: a leading `-` negates the polarity, and
/// the digits name the variable.
pub open spec fn lit_of_token(s: Seq<u8>, ts: int, te: int) -> Literal {
    let ds = if s[ts] == 45 || s[ts] == 43 {
        ts + 1
    } else {
        ts
    };
    Literal {
        variable: Variable(digits_val(s.subrange(ds, te)) as u64),
        polarity: s[ts] != 45,
    }
}

/// The literals of the clause line `s[q..ce)`, in order, up to a `0`
/// terminator or the line's end.
pub open spec fn clause_line_lits(s: Seq<u8>, q: int, ce: int) -> Seq<Literal>
    decreases ce - q,
    via clause_line_lits_dec
{
    if 0 <= q && q <= ce && ce <= s.len() {
        let ts = skip_spaces_spec(s, q, ce);
        let te = scan_token_spec(s, ts, ce);
        if te <= ts {
            Seq::empty()
        } else if te - ts == 1 && s[ts] == 48 {
            Seq::empty()
        } else {
            seq![lit_of_token(s, ts, te)] + clause_line_lits(s, te, ce)
        }
    } else {
        Seq::empty()
    }
}

#[via_fn]
proof fn clause_line_lits_dec(s: Seq<u8>, q: int, ce: int) {
    if 0 <= q && q <= ce && ce <= s.len() {
        lemma_scan_specs(s, q, ce);
        let ts = skip_spaces_spec(s, q, ce);
        lemma_scan_specs(s, ts, ce);
    }
}

/// The clause list read off the lines at or after `pos`: one clause per
/// non-blank, non-comment line.
pub open spec fn clause_seqs_from(s: Seq<u8>, pos: int) -> Seq<Seq<Literal>>
    decreases s.len() - pos,
    via clause_seqs_from_dec
{
    if 0 <= pos && pos < s.len() {
        let ce = content_end_of(s, pos);
        let here = if ce > pos && s[pos] != 99 {
            seq![clause_line_lits(s, pos, ce)]
        } else {
            Seq::<Seq<Literal>>::empty()
        };
        here + clause_seqs_from(s, next_line_pos(s, pos))
    } else {
        Seq::empty()
    }
}

#[via_fn]
proof fn clause_seqs_from_dec(s: Seq<u8>, pos: int) {
    if 0 <= pos && pos < s.len() {
        lemma_line_end_bounds(s, pos);
    }
}

/// `hs` is the first non-blank, non-comment line and carries a well-formed
/// header.
pub open spec fn header_found(s: Seq<u8>, hs: int) -> bool {
    &&& is_content_line(s, hs)
    &&& forall|ls: int| 0 <= ls < hs ==> !is_content_line(s, ls)
    &&& header_ok(s, hs, content_end_of(s, hs))
}

/// The whole input is parseable: its first non-blank, non-comment line is a
/// well-formed header, and every later such line is a well-formed clause
/// line over the declared variables.
pub open spec fn parseable(s: Seq<u8>) -> bool {
    exists|hs: int|
        #[trigger] header_found(s, hs) && clause_lines_ok(
            s,
            next_line_pos(s, hs),
            header_num_vars(s, hs, content_end_of(s, hs)),
        )
}

/// Two first content lines coincide.
proof fn lemma_first_content_line_unique(s: Seq<u8>, ls1: int, ls2: int)
    requires
        is_content_line(s, ls1),
        forall|q: int| 0 <= q < ls1 ==> !is_content_line(s, q),
        is_content_line(s, ls2),
        forall|q: int| 0 <= q < ls2 ==> !is_content_line(s, q),
    ensures
        ls1 == ls2,
{
    if ls1 < ls2 {
        assert(!is_content_line(s, ls1));
    }
    if ls2 < ls1 {
        assert(!is_content_line(s, ls2));
    }
}

/// With a bad first content line, or bad clause lines after a good header,
/// the input is not parseable.
proof fn lemma_not_parseable_at(s: Seq<u8>, hs: int)
    requires
        is_content_line(s, hs),
        forall|ls: int| 0 <= ls < hs ==> !is_content_line(s, ls),
        !header_ok(s, hs, content_end_of(s, hs)) || !clause_lines_ok(
            s,
            next_line_pos(s, hs),
            header_num_vars(s, hs, content_end_of(s, hs)),
        ),
    ensures
        !parseable(s),
{
    if parseable(s) {
        let hs2 = choose|hs2: int|
            #[trigger] header_found(s, hs2) && clause_lines_ok(
                s,
                next_line_pos(s, hs2),
                header_num_vars(s, hs2, content_end_of(s, hs2)),
            );
        lemma_first_content_line_unique(s, hs, hs2);
    }
}

impl Cnf {
    /// Parse a DIMACS CNF text. Success is owed exactly on parseable
    /// inputs; the parsed formula is then well formed: every literal's
    /// variable identifier lies in `1..=num_variables`, and the declared
    /// variable count fits the machine's address range.
    pub fn from_string(dimacs_string: &str) -> (r: Result<Cnf, String>)
        ensures
            match r {
                Ok(cnf) => cnf.wf() && cnf.num_variables <= usize::MAX && (exists|hs: int|
                    {
                        &&& #[trigger] header_found(dimacs_string.spec_bytes(), hs)
                        &&& cnf.num_variables as nat == header_num_vars(
                            dimacs_string.spec_bytes(),
                            hs,
                            content_end_of(dimacs_string.spec_bytes(), hs),
                        )
                        &&& cnf.clause_seq() == clause_seqs_from(
                            dimacs_string.spec_bytes(),
                            next_line_pos(dimacs_string.spec_bytes(), hs),
                        )
                    }),
                Err(_) => true,
            },
            r is Ok <==> parseable(dimacs_string.spec_bytes()),
    {
        let bytes = dimacs_string.as_bytes();
        let ghost s = bytes@;
        let total = bytes.len();

        let mut pos: usize = 0;
        let mut header_start: usize = 0;
        let mut header_end: usize = 0;
        let mut have_header = false;
        while pos < total
            invariant_except_break
                !have_header,
                pos <= total,
                total == s.len(),
                s == bytes@,
                pos == 0 || pos == total || (0 < pos && s[pos - 1] == 10),
                forall|ls: int| 0 <= ls < pos ==> !is_content_line(s, ls),
            ensures
                total == s.len(),
                s == bytes@,
                pos <= total,
                have_header ==> {
                    &&& header_start <= header_end <= total
                    &&& is_content_line(s, header_start as int)
                    &&& header_end == content_end_of(s, header_start as int)
                    &&& (forall|ls: int| 0 <= ls < header_start ==> !is_content_line(s, ls))
                    &&& pos == next_line_pos(s, header_start as int)
                },
                !have_header ==> forall|ls: int| 0 <= ls < total ==> !is_content_line(s, ls),
            decreases total - pos,
        {
            let line_start = pos;
            let mut e = pos;
            while e < total && bytes[e] != 10
                invariant
                    pos <= e <= total,
                    total == s.len(),
                    s == bytes@,
                    forall|q: int| pos <= q < e ==> s[q] != 10,
                    line_end_from(s, pos as int) == line_end_from(s, e as int),
                decreases total - e,
            {
                e = e + 1;
            }
            proof {
                assert(line_end_from(s, e as int) == e as int);
                assert(line_end_from(s, line_start as int) == e as int);
            }
            let mut line_end = e;
            if line_end > line_start && bytes[line_end - 1] == 13 {
                line_end = line_end - 1;
            }
            proof {
                assert(line_end as int == content_end_of(s, line_start as int));
            }
            pos = if e < total {
                e + 1
            } else {
                total
            };
            proof {
                assert(pos as int == next_line_pos(s, line_start as int));
            }
            if line_end > line_start && bytes[line_start] != 99 {
                proof {
                    assert(is_content_line(s, line_start as int));
                }
                header_start = line_start;
                header_end = line_end;
                have_header = true;
                break ;
            }
            proof {
                assert(!is_content_line(s, line_start as int));
                assert forall|ls: int| 0 <= ls < pos implies !is_content_line(s, ls) by {
                    if line_start < ls {
                        assert(s[ls - 1] != 10);
                    }
                }
            }
        }
        if !have_header {
            proof {
                assert(!parseable(s)) by {
                    if parseable(s) {
                        let hs = choose|hs: int|
                            #[trigger] header_found(s, hs) && clause_lines_ok(
                                s,
                                next_line_pos(s, hs),
                                header_num_vars(s, hs, content_end_of(s, hs)),
                            );
                        assert(!is_content_line(s, hs));
                    }
                }
            }
            return Err("No DIMACS header was found".to_owned());
        }
        let ghost hs = header_start as int;
        let ghost he = header_end as int;

        let t0 = skip_spaces(bytes, header_start, header_end);
        let t0_end = scan_token(bytes, t0, header_end);
        if !(t0_end - t0 == 1 && bytes[t0] == 112) {
            proof {
                lemma_not_parseable_at(s, hs);
            }
            return Err("Invalid DIMACS header: expected 'p'".to_owned());
        }
        let t1 = skip_spaces(bytes, t0_end, header_end);
        let t1_end = scan_token(bytes, t1, header_end);
        if !(t1_end - t1 == 3 && bytes[t1] == 99 && bytes[t1 + 1] == 110 && bytes[t1 + 2] == 102) {
            proof {
                lemma_not_parseable_at(s, hs);
            }
            return Err("Unsupported clause format in DIMACS header".to_owned());
        }
        let t2 = skip_spaces(bytes, t1_end, header_end);
        let t2_end = scan_token(bytes, t2, header_end);
        let num_variables = match parse_u64(bytes, t2, t2_end) {
            Some(v) => v,
            None => {
                proof {
                    assert(!num_token_ok(s, t2 as int, t2_end as int));
                    lemma_not_parseable_at(s, hs);
                }
                return Err("Invalid number of variables in DIMACS header".to_owned());
            },
        };
        proof {
            assert(num_variables as nat == header_num_vars(s, hs, he));
        }
        let t3 = skip_spaces(bytes, t2_end, header_end);
        let t3_end = scan_token(bytes, t3, header_end);
        match parse_u64(bytes, t3, t3_end) {
            Some(_) => {},
            None => {
                proof {
                    assert(!num_token_ok(s, t3 as int, t3_end as int));
                    lemma_not_parseable_at(s, hs);
                }
                return Err("Invalid number of clauses in DIMACS header".to_owned());
            },
        };
        if num_variables > (usize::MAX as u64) {
            proof {
                lemma_not_parseable_at(s, hs);
            }
            return Err("Too many variables for this machine".to_owned());
        }
        let ghost nv = num_variables as nat;
        let ghost p0 = pos as int;
        proof {
            assert(header_ok(s, hs, he));
            assert(header_found(s, hs));
            lemma_line_end_bounds(s, hs);
        }

        let mut clauses: Vec<Clause> = Vec::new();
        proof {
            assert(Seq::<Seq<Literal>>::empty() + clause_seqs_from(s, p0) =~= clause_seqs_from(
                s,
                p0,
            ));
            assert(clauses@.map_values(|c: Clause| c.0@) =~= Seq::<Seq<Literal>>::empty());
        }
        while pos < total
            invariant
                pos <= total,
                total == s.len(),
                s == bytes@,
                s == dimacs_string.spec_bytes(),
                pos == total || pos == 0 || s[pos - 1] == 10,
                header_found(s, hs),
                he == content_end_of(s, hs),
                nv == header_num_vars(s, hs, he),
                num_variables as nat == nv,
                num_variables <= usize::MAX,
                p0 == next_line_pos(s, hs),
                clause_lines_ok(s, p0, nv) <==> clause_lines_ok(s, pos as int, nv),
                clauses@.map_values(|c: Clause| c.0@) + clause_seqs_from(s, pos as int)
                    == clause_seqs_from(s, p0),
                forall|ci: int|
                    0 <= ci < clauses@.len() ==> clause_in_bound(
                        #[trigger] clauses@[ci].0@,
                        num_variables as int,
                    ),
            decreases total - pos,
        {
            let line_start = pos;
            let mut e = pos;
            while e < total && bytes[e] != 10
                invariant
                    pos <= e <= total,
                    total == s.len(),
                    s == bytes@,
                    forall|q: int| pos <= q < e ==> s[q] != 10,
                    line_end_from(s, pos as int) == line_end_from(s, e as int),
                decreases total - e,
            {
                e = e + 1;
            }
            proof {
                assert(line_end_from(s, e as int) == e as int);
                assert(line_end_from(s, line_start as int) == e as int);
            }
            let mut line_end = e;
            if line_end > line_start && bytes[line_end - 1] == 13 {
                line_end = line_end - 1;
            }
            proof {
                assert(line_end as int == content_end_of(s, line_start as int));
            }
            pos = if e < total {
                e + 1
            } else {
                total
            };
            proof {
                assert(pos as int == next_line_pos(s, line_start as int));
            }
            if line_end > line_start && bytes[line_start] != 99 {
                let ghost ce = line_end as int;
                let mut literals: Vec<Literal> = Vec::new();
                proof {
                    assert(Seq::<Literal>::empty() + clause_line_lits(s, line_start as int, ce)
                        =~= clause_line_lits(s, line_start as int, ce));
                    assert(literals@ =~= Seq::<Literal>::empty());
                }
                let mut q = line_start;
                while q < line_end
                    invariant_except_break
                        line_start <= q <= line_end <= total,
                        total == s.len(),
                        s == bytes@,
                        s == dimacs_string.spec_bytes(),
                        header_found(s, hs),
                        he == content_end_of(s, hs),
                        nv == header_num_vars(s, hs, he),
                        num_variables as nat == nv,
                        ce == line_end as int,
                        ce == content_end_of(s, line_start as int),
                        p0 == next_line_pos(s, hs),
                        clause_lines_ok(s, p0, nv) <==> clause_lines_ok(s, line_start as int, nv),
                        line_start < total && s[line_start as int] != 99 && ce > line_start,
                        clause_line_ok(s, line_start as int, ce, nv) <==> clause_line_ok(
                            s,
                            q as int,
                            ce,
                            nv,
                        ),
                        clause_line_lits(s, line_start as int, ce) == literals@
                            + clause_line_lits(s, q as int, ce),
                        forall|k: int|
                            0 <= k < literals@.len() ==> lit_in_bound(
                                #[trigger] literals@[k],
                                num_variables as int,
                            ),
                    ensures
                        clause_line_ok(s, line_start as int, ce, nv),
                        clause_line_lits(s, line_start as int, ce) == literals@,
                        forall|k: int|
                            0 <= k < literals@.len() ==> lit_in_bound(
                                #[trigger] literals@[k],
                                num_variables as int,
                            ),
                    decreases line_end - q,
                {
                    let token_start = skip_spaces(bytes, q, line_end);
                    let token_end = scan_token(bytes, token_start, line_end);
                    if token_start == token_end {
                        proof {
                            assert(clause_line_ok(s, q as int, ce, nv));
                            assert(clause_line_lits(s, q as int, ce) =~= Seq::<Literal>::empty());
                            assert(literals@ + Seq::<Literal>::empty() =~= literals@);
                        }
                        break ;
                    }
                    if token_end - token_start == 1 && bytes[token_start] == 48 {
                        proof {
                            assert(clause_line_ok(s, q as int, ce, nv));
                            assert(clause_line_lits(s, q as int, ce) =~= Seq::<Literal>::empty());
                            assert(literals@ + Seq::<Literal>::empty() =~= literals@);
                        }
                        break ;
                    }
                    let first = bytes[token_start];
                    let negative = first == 45;
                    let digits_start = if first == 45 || first == 43 {
                        token_start + 1
                    } else {
                        token_start
                    };
                    let magnitude = match parse_u64(bytes, digits_start, token_end) {
                        Some(v) => v,
                        None => {
                            proof {
                                assert(!lit_token_ok(s, token_start as int, token_end as int, nv));
                                assert(!clause_line_ok(s, q as int, ce, nv));
                                assert(!clause_lines_ok(s, line_start as int, nv));
                                lemma_not_parseable_at(s, hs);
                            }
                            return Err("A clause holds an invalid literal".to_owned());
                        },
                    };
                    if magnitude == 0 || magnitude > num_variables {
                        proof {
                            assert(!lit_token_ok(s, token_start as int, token_end as int, nv));
                            assert(!clause_line_ok(s, q as int, ce, nv));
                            assert(!clause_lines_ok(s, line_start as int, nv));
                            lemma_not_parseable_at(s, hs);
                        }
                        return Err(
                            "A literal references a variable outside the declared range".to_owned(),
                        );
                    }
                    let parsed = Literal { variable: Variable(magnitude), polarity: !negative };
                    proof {
                        assert(lit_token_ok(s, token_start as int, token_end as int, nv));
                        assert(clause_line_ok(s, q as int, ce, nv) <==> clause_line_ok(
                            s,
                            token_end as int,
                            ce,
                            nv,
                        ));
                        assert(parsed == lit_of_token(s, token_start as int, token_end as int));
                        assert(clause_line_lits(s, q as int, ce) == seq![parsed]
                            + clause_line_lits(s, token_end as int, ce));
                    }
                    let ghost previous = literals@;
                    literals.push(parsed);
                    proof {
                        assert(literals@ =~= previous + seq![parsed]);
                        assert((previous + seq![parsed]) + clause_line_lits(s, token_end as int, ce)
                            =~= previous + (seq![parsed] + clause_line_lits(
                            s,
                            token_end as int,
                            ce,
                        )));
                    }
                    q = token_end;
                }
                let ghost views = clauses@.map_values(|c: Clause| c.0@);
                let ghost pushed = literals@;
                clauses.push(Clause(literals));
                proof {
                    assert(clause_lines_ok(s, line_start as int, nv) <==> clause_lines_ok(
                        s,
                        pos as int,
                        nv,
                    ));
                    assert(clause_seqs_from(s, line_start as int) == seq![pushed]
                        + clause_seqs_from(s, pos as int));
                    assert(clauses@.map_values(|c: Clause| c.0@) =~= views + seq![pushed]);
                    assert((views + seq![pushed]) + clause_seqs_from(s, pos as int) =~= views + (
                    seq![pushed] + clause_seqs_from(s, pos as int)));
                }
            } else {
                proof {
                    assert(clause_lines_ok(s, line_start as int, nv) <==> clause_lines_ok(
                        s,
                        pos as int,
                        nv,
                    ));
                    assert(clause_seqs_from(s, line_start as int) == clause_seqs_from(
                        s,
                        pos as int,
                    ));
                    assert(Seq::<Seq<Literal>>::empty() + clause_seqs_from(s, pos as int)
                        =~= clause_seqs_from(s, pos as int));
                }
            }
        }
        proof {
            assert(clause_lines_ok(s, total as int, nv));
            assert(clause_lines_ok(s, p0, nv));
            assert(parseable(s));
            assert(clause_seqs_from(s, total as int) =~= Seq::<Seq<Literal>>::empty());
            assert(clauses@.map_values(|c: Clause| c.0@) + Seq::<Seq<Literal>>::empty()
                =~= clauses@.map_values(|c: Clause| c.0@));
            assert(clauses@.map_values(|c: Clause| c.0@) == clause_seqs_from(s, p0));
        }
        let cnf = Cnf { num_variables, clauses };
        proof {
            assert(cnf.wf());
        }
        Ok(cnf)
    }
}

} // verus!
