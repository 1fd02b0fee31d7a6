//! Scanning the textual edge list.
//!
//! The input is a free-form string; every substring of the shape
//! `<letter><letter><digits>` (for example `AB5`) is one directed edge:
//! origin = first letter, destination = second letter, distance = the
//! maximal digit run read as a decimal number.  Everything else is a
//! separator.  The scan takes the leftmost such substring, then continues
//! right after it, so matches never overlap.

use vstd::prelude::*;

verus! {

/// Errors of graph construction.
#[derive(Debug, Clone, Copy, PartialEq, Eq, Structural)]
pub enum GraphError {
    /// A distance token does not fit a 32-bit unsigned integer.
    MalformedEdge,
}

/// One parsed edge: origin station, destination station, distance.
pub type ParsedEdge = (String, String, u32);

pub open spec fn is_letter(c: char) -> bool {
    (97 <= c as u32 && c as u32 <= 122) || (65 <= c as u32 && c as u32 <= 90)
}

pub open spec fn is_digit(c: char) -> bool {
    48 <= c as u32 && c as u32 <= 57
}

pub open spec fn digit_val(c: char) -> nat {
    (c as u32 - 48) as nat
}

/// Length of the maximal digit run at the front of `s`.
pub open spec fn digit_run_len(s: Seq<char>) -> nat
    decreases s.len(),
{
    if s.len() > 0 && is_digit(s[0]) {
        1 + digit_run_len(s.skip(1))
    } else {
        0
    }
}

/// Decimal value of a digit sequence (most significant digit first).
pub open spec fn digits_value(s: Seq<char>) -> nat
    decreases s.len(),
{
    if s.len() == 0 {
        0
    } else {
        digits_value(s.take(s.len() - 1)) * 10 + digit_val(s[s.len() - 1])
    }
}

/// The edges found in `s`, leftmost first, never overlapping.  Each edge is
/// `(origin, destination, decimal value of the maximal digit run)`.
pub open spec fn scan_edges(s: Seq<char>) -> Seq<(char, char, nat)>
    decreases s.len(),
    via scan_edges_decreases
{
    if s.len() < 3 {
        Seq::empty()
    } else if is_letter(s[0]) && is_letter(s[1]) && is_digit(s[2]) {
        let k = digit_run_len(s.skip(2));
        seq![(s[0], s[1], digits_value(s.skip(2).take(k as int)))] + scan_edges(
            s.skip(2 + k as int),
        )
    } else {
        scan_edges(s.skip(1))
    }
}

#[via_fn]
proof fn scan_edges_decreases(s: Seq<char>) {
    if s.len() >= 3 && is_letter(s[0]) && is_letter(s[1]) && is_digit(s[2]) {
        lemma_digit_run_len_le(s.skip(2));
    }
}

proof fn lemma_digit_run_len_le(s: Seq<char>)
    ensures
        digit_run_len(s) <= s.len(),
    decreases s.len(),
{
    if s.len() > 0 && is_digit(s[0]) {
        lemma_digit_run_len_le(s.skip(1));
    }
}

/// Every distance value of the scan fits a `u32`.
pub open spec fn scan_ok(sc: Seq<(char, char, nat)>) -> bool {
    forall|i: int| 0 <= i < sc.len() ==> (#[trigger] sc[i]).2 <= u32::MAX
}

/// The scanned edges as station tokens: each letter becomes a one-character
/// station identifier.
pub open spec fn scan_to_edges(sc: Seq<(char, char, nat)>) -> Seq<(Seq<char>, Seq<char>, u32)> {
    sc.map_values(|t: (char, char, nat)| (seq![t.0], seq![t.1], t.2 as u32))
}

/// The views of a vector of parsed edges.
pub open spec fn edges_view(v: Seq<ParsedEdge>) -> Seq<(Seq<char>, Seq<char>, u32)> {
    v.map_values(|e: ParsedEdge| (e.0@, e.1@, e.2))
}

fn letter(c: char) -> (b: bool)
    ensures
        b == is_letter(c),
{
    let u = c as u32;
    (97 <= u && u <= 122) || (65 <= u && u <= 90)
}

fn digit(c: char) -> (b: bool)
    ensures
        b == is_digit(c),
{
    let u = c as u32;
    48 <= u && u <= 57
}

/// Appending digits to a digit run never lowers its value.
proof fn lemma_digits_value_prefix_le(s: Seq<char>, m: int)
    requires
        0 <= m <= s.len(),
    ensures
        digits_value(s.take(m)) <= digits_value(s),
    decreases s.len() - m,
{
    if m < s.len() {
        lemma_digits_value_prefix_le(s.take(s.len() - 1), m);
        assert(s.take(s.len() - 1).take(m) =~= s.take(m));
        assert(digits_value(s) >= digits_value(s.take(s.len() - 1)));
    } else {
        assert(s.take(m) =~= s);
    }
}

/// If the first `t` characters of `s` are digits and the scan stops at `t`
/// (end of sequence or a non-digit), the maximal digit run has length `t`.
proof fn lemma_digit_run_len_exact(s: Seq<char>, t: int)
    requires
        0 <= t <= s.len(),
        forall|m: int| 0 <= m < t ==> is_digit(#[trigger] s[m]),
        t == s.len() || !is_digit(s[t]),
    ensures
        digit_run_len(s) == t,
    decreases t,
{
    if t == 0 {
    } else {
        lemma_digit_run_len_exact(s.skip(1), t - 1);
    }
}

/// Parse the whole input text into the sequence of edges that the scan
/// finds, leftmost first.  Fails with `MalformedEdge` exactly when some
/// distance token does not fit a `u32`.
#[verifier::loop_isolation(false)]
#[verifier::rlimit(30)]
pub fn parse_edges(input: &str) -> (r: Result<Vec<ParsedEdge>, GraphError>)
    ensures
        scan_ok(scan_edges(input@)) ==> (r is Ok && edges_view(r->Ok_0@) == scan_to_edges(
            scan_edges(input@),
        )),
        !scan_ok(scan_edges(input@)) ==> r == Result::<Vec<ParsedEdge>, GraphError>::Err(
            GraphError::MalformedEdge,
        ),
{
    let ghost s = input@;
    let n = input.unicode_len();
    let mut i: usize = 0;
    let mut out: Vec<ParsedEdge> = Vec::new();
    let ghost mut sc_acc: Seq<(char, char, nat)> = Seq::empty();
    proof {
        assert(s.skip(0) =~= s);
        assert(sc_acc + scan_edges(s) =~= scan_edges(s));
        assert(edges_view(out@) =~= scan_to_edges(sc_acc));
    }
    while i < n
        invariant
            n == s.len(),
            s == input@,
            i <= n,
            scan_edges(s) == sc_acc + scan_edges(s.skip(i as int)),
            scan_ok(sc_acc),
            edges_view(out@) == scan_to_edges(sc_acc),
        decreases n - i,
    {
        if n - i >= 3 && letter(input.get_char(i)) && letter(input.get_char(i + 1)) && digit(
            input.get_char(i + 2),
        ) {
            let ghost i0 = i as int;
            // collect the maximal digit run starting at i + 2
            let base = i + 2;
            let mut j = base;
            let mut value: u64 = 0;
            while j < n && digit(input.get_char(j))
                invariant
                    n == s.len(),
                    s == input@,
                    base <= j <= n,
                    base == i + 2,
                    i + 2 < n,
                    forall|m: int| base <= m < j ==> is_digit(#[trigger] s[m]),
                    value == digits_value(s.skip(base as int).take(j - base)),
                    value <= u32::MAX as u64,
                decreases n - j,
            {
                let d = input.get_char(j) as u32 - 48;
                let new_value: u64 = value * 10 + d as u64;
                proof {
                    let run = s.skip(base as int);
                    assert(run.take(j + 1 - base).take(j - base) =~= run.take(j - base));
                    assert(run.take(j + 1 - base)[j - base] == s[j as int]);
                    assert(digits_value(run.take(j + 1 - base)) == digits_value(
                        run.take(j - base),
                    ) * 10 + digit_val(s[j as int]));
                }
                j = j + 1;
                if new_value > u32::MAX as u64 {
                    // the distance token does not fit a u32: the whole scan
                    // is malformed, whatever follows.
                    proof {
                        let run = s.skip(base as int);
                        lemma_digit_run_len_le(run);
                        let k = digit_run_len(run);
                        assert(forall|m: int| 0 <= m < j - base ==> is_digit(#[trigger] run[m]));
                        lemma_run_prefix_of_digit_run(run, j - base);
                        lemma_digits_value_prefix_le(run.take(k as int), j - base);
                        assert(run.take(k as int).take(j - base) =~= run.take(j - base));
                        let full = scan_edges(s.skip(i0));
                        assert(s.skip(i0)[0] == s[i0]);
                        assert(s.skip(i0)[1] == s[i0 + 1]);
                        assert(s.skip(i0)[2] == s[i0 + 2]);
                        assert(s.skip(i0).skip(2) =~= run);
                        assert(full[0].2 == digits_value(run.take(k as int)));
                        assert(full[0].2 > u32::MAX);
                        assert(!scan_ok(scan_edges(s))) by {
                            let idx = sc_acc.len() as int;
                            assert(scan_edges(s)[idx] == full[0]);
                        }
                    }
                    return Err(GraphError::MalformedEdge);
                }
                value = new_value;
            }
            // j is the end of the digit run
            let origin = input.substring_char(i, i + 1).to_owned();
            let dest = input.substring_char(i + 1, i + 2).to_owned();
            let dist: u32 = value as u32;
            proof {
                let run = s.skip(base as int);
                lemma_digit_run_len_exact(run, j - base);
                assert(s.skip(i0)[0] == s[i0]);
                assert(s.skip(i0)[1] == s[i0 + 1]);
                assert(s.skip(i0)[2] == s[i0 + 2]);
                assert(s.skip(i0).skip(2) =~= run);
                assert(s.skip(i0).skip(2 + (j - base)) =~= s.skip(i0 + 2 + (j - base)));
                assert(scan_edges(s.skip(i0)) == seq![(s[i0], s[i0 + 1], digits_value(
                    run.take(j - base),
                ))] + scan_edges(s.skip(j as int)));
                assert(origin@ =~= seq![s[i0]]);
                assert(dest@ =~= seq![s[i0 + 1]]);
            }
            let ghost old_out = out@;
            out.push((origin, dest, dist));
            proof {
                let t = (s[i0], s[i0 + 1], digits_value(s.skip(base as int).take(j - base)));
                let old_acc = sc_acc;
                sc_acc = sc_acc + seq![t];
                assert(scan_edges(s) == sc_acc + scan_edges(s.skip(j as int))) by {
                    assert((old_acc + (seq![t] + scan_edges(s.skip(j as int)))) =~= (old_acc
                        + seq![t]) + scan_edges(s.skip(j as int)));
                }
                assert(edges_view(out@) =~= scan_to_edges(sc_acc)) by {
                    assert(out@ == old_out.push((origin, dest, dist)));
                    assert(value == t.2);
                    assert(dist == t.2 as u32);
                    assert forall|m: int| 0 <= m < out@.len() implies edges_view(out@)[m]
                        == scan_to_edges(sc_acc)[m] by {
                        if m < old_out.len() {
                            assert(out@[m] == old_out[m]);
                            assert(sc_acc[m] == old_acc[m]);
                            assert(edges_view(old_out)[m] == scan_to_edges(old_acc)[m]);
                        } else {
                            assert(out@[m] == (origin, dest, dist));
                            assert(sc_acc[m] == t);
                        }
                    }
                }
            }
            i = j;
        } else {
            proof {
                if n - i >= 3 {
                    assert(s.skip(i as int)[0] == s[i as int]);
                    assert(s.skip(i as int)[1] == s[i as int + 1]);
                    assert(s.skip(i as int)[2] == s[i as int + 2]);
                    assert(s.skip(i as int).skip(1) =~= s.skip(i as int + 1));
                } else {
                    assert(scan_edges(s.skip(i as int)) == Seq::<(char, char, nat)>::empty());
                    assert(scan_edges(s.skip(i as int + 1)) == Seq::<(char, char, nat)>::empty());
                }
            }
            i = i + 1;
        }
    }
    proof {
        assert(s.skip(n as int) =~= Seq::<char>::empty());
        assert(scan_edges(s) == sc_acc + scan_edges(s.skip(n as int)));
        assert(sc_acc + Seq::<(char, char, nat)>::empty() =~= sc_acc);
    }
    Ok(out)
}

/// The first `t` digits of `s` are a prefix of its maximal digit run.
proof fn lemma_run_prefix_of_digit_run(s: Seq<char>, t: int)
    requires
        0 <= t <= s.len(),
        forall|m: int| 0 <= m < t ==> is_digit(#[trigger] s[m]),
    ensures
        digit_run_len(s) >= t,
    decreases t,
{
    if t > 0 {
        lemma_run_prefix_of_digit_run(s.skip(1), t - 1);
    }
}

} // verus!
