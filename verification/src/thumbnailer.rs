//! The pipeline stages of one thumbnail order: classifying discovered paths,
//! distributing candidates round-robin over worker lanes, turning codec
//! outcomes into messages, the controller's state machine, and the codec
//! itself. Threads and channels that carry these values live outside the
//! crate; each stage's decision is a function here.

use vstd::prelude::*;
use vstd::string::*;
use vstd::multiset::Multiset;
use vstd::arithmetic::div_mod::lemma_fundamental_div_mod;
use vstd::arithmetic::div_mod::lemma_fundamental_div_mod_converse;
use vstd::seq_lib::group_to_multiset_ensures;

use crate::AppToThumbnailer;
use crate::LoadData;
use crate::ThumbnailPaths;
use crate::ThumbnailerToApp;

verus! {

// ---------------------------------------------------------------------------
// Decimal rendering
// ---------------------------------------------------------------------------
/// The character for the decimal digit `d`.
pub open spec fn digit_char(d: nat) -> char {
    if d == 0 {
        '0'
    } else if d == 1 {
        '1'
    } else if d == 2 {
        '2'
    } else if d == 3 {
        '3'
    } else if d == 4 {
        '4'
    } else if d == 5 {
        '5'
    } else if d == 6 {
        '6'
    } else if d == 7 {
        '7'
    } else if d == 8 {
        '8'
    } else {
        '9'
    }
}

/// The decimal rendering of `n`, most significant digit first, no sign and
/// no leading zero.
pub open spec fn dec_digits(n: nat) -> Seq<char>
    decreases n,
{
    if n < 10 {
        seq![digit_char(n)]
    } else {
        dec_digits(n / 10).push(digit_char(n % 10))
    }
}

fn digit_str(d: u64) -> (s: &'static str)
    requires
        d < 10,
    ensures
        s@ == seq![digit_char(d as nat)],
{
    proof {
        reveal_strlit("0");
        reveal_strlit("1");
        reveal_strlit("2");
        reveal_strlit("3");
        reveal_strlit("4");
        reveal_strlit("5");
        reveal_strlit("6");
        reveal_strlit("7");
        reveal_strlit("8");
        reveal_strlit("9");
    }
    match d {
        0 => "0",
        1 => "1",
        2 => "2",
        3 => "3",
        4 => "4",
        5 => "5",
        6 => "6",
        7 => "7",
        8 => "8",
        _ => "9",
    }
}

/// Renders `n` in decimal.
pub fn u128_to_string(n: u128) -> (s: String)
    ensures
        s@ == dec_digits(n as nat),
    decreases n,
{
    if n < 10 {
        digit_str(n as u64).to_owned()
    } else {
        assert(n / 10 < n) by (nonlinear_arith)
            requires
                n >= 10,
        ;
        let mut s = u128_to_string(n / 10);
        s.append(digit_str((n % 10) as u64));
        assert(s@ =~= dec_digits((n / 10) as nat).push(digit_char((n % 10) as nat)));
        s
    }
}

/// Ten to the `e`th power.
pub open spec fn spec_pow10(e: nat) -> nat
    decreases e,
{
    if e == 0 {
        1
    } else {
        10 * spec_pow10((e - 1) as nat)
    }
}

/// The digits of a fraction with `width` decimal places, most significant
/// first, stopping once the rest is zero - so trailing zeros are trimmed
/// and a zero fraction renders as nothing.
pub open spec fn spec_frac_digits(frac: nat, width: nat) -> Seq<char>
    decreases width,
{
    if frac == 0 || width == 0 {
        Seq::empty()
    } else {
        seq![digit_char(frac / spec_pow10((width - 1) as nat))] + spec_frac_digits(
            frac % spec_pow10((width - 1) as nat),
            (width - 1) as nat,
        )
    }
}

/// A decimal point and the fraction's digits; nothing for a zero fraction.
pub open spec fn spec_dot_frac(frac: nat, width: nat) -> Seq<char> {
    if frac == 0 {
        Seq::empty()
    } else {
        "."@ + spec_frac_digits(frac, width)
    }
}

/// A duration of `n` nanoseconds, rendered the way the standard library
/// debug-prints a `Duration`: the largest fitting unit among s, ms, us and
/// ns, an integer part, and the fractional digits with trailing zeros
/// trimmed.
pub open spec fn spec_duration_render(n: nat) -> Seq<char> {
    if n >= 1_000_000_000 {
        dec_digits(n / 1_000_000_000) + spec_dot_frac(n % 1_000_000_000, 9) + "s"@
    } else if n >= 1_000_000 {
        dec_digits(n / 1_000_000) + spec_dot_frac(n % 1_000_000, 6) + "ms"@
    } else if n >= 1_000 {
        dec_digits(n / 1_000) + spec_dot_frac(n % 1_000, 3) + "\u{b5}s"@
    } else {
        dec_digits(n) + "ns"@
    }
}

proof fn lemma_pow10_pos(e: nat)
    ensures
        spec_pow10(e) >= 1,
    decreases e,
{
    if e > 0 {
        lemma_pow10_pos((e - 1) as nat);
    }
}

/// The fractional part of a rendered duration: a point and up to `width`
/// digits, trailing zeros trimmed; empty for a zero fraction.
fn frac_string(frac: u64, width: u32) -> (s: String)
    requires
        1 <= width <= 9,
        frac < spec_pow10(width as nat),
    ensures
        s@ == spec_dot_frac(frac as nat, width as nat),
{
    proof {
        reveal_with_fuel(spec_pow10, 11);
    }
    if frac == 0 {
        return String::new();
    }
    let mut divisor: u64 = 1;
    let mut w: u32 = 1;
    while w < width
        invariant
            1 <= w <= width <= 9,
            divisor == spec_pow10((w - 1) as nat),
            divisor <= 100_000_000,
        decreases width - w,
    {
        proof {
            reveal_with_fuel(spec_pow10, 11);
        }
        divisor = divisor * 10;
        w += 1;
    }
    let mut s = String::from_str(".");
    let mut fr = frac;
    let mut wd = width;
    while fr > 0
        invariant
            wd <= width,
            fr < spec_pow10(wd as nat),
            wd >= 1 ==> divisor == spec_pow10((wd - 1) as nat),
            spec_dot_frac(frac as nat, width as nat) == s@ + spec_frac_digits(
                fr as nat,
                wd as nat,
            ),
        decreases wd,
    {
        proof {
            reveal_with_fuel(spec_pow10, 11);
            if wd == 0 {
                assert(fr < 1);
            }
            lemma_pow10_pos((wd - 1) as nat);
            assert(spec_pow10(wd as nat) == 10 * spec_pow10((wd - 1) as nat));
            vstd::arithmetic::div_mod::lemma_multiply_divide_lt(
                fr as int,
                divisor as int,
                10,
            );
        }
        let digit = fr / divisor;
        s.append(digit_str(digit));
        let ghost pre = (fr, wd);
        fr = fr % divisor;
        divisor = divisor / 10;
        wd -= 1;
        proof {
            assert(spec_frac_digits(pre.0 as nat, pre.1 as nat) == seq![digit_char(digit as nat)]
                + spec_frac_digits(fr as nat, wd as nat));
            assert(s@ + spec_frac_digits(fr as nat, wd as nat) =~= spec_dot_frac(
                frac as nat,
                width as nat,
            ));
        }
    }
    proof {
        assert(spec_frac_digits(fr as nat, wd as nat) =~= Seq::<char>::empty());
        assert(s@ =~= spec_dot_frac(frac as nat, width as nat));
    }
    s
}

/// Renders a duration of `n` nanoseconds as the standard library
/// debug-prints a `Duration`.
pub fn duration_to_string(n: u64) -> (s: String)
    ensures
        s@ == spec_duration_render(n as nat),
{
    proof {
        reveal_with_fuel(spec_pow10, 11);
    }
    if n >= 1_000_000_000 {
        let mut s = u128_to_string((n / 1_000_000_000) as u128);
        s.append(frac_string(n % 1_000_000_000, 9).as_str());
        s.append("s");
        s
    } else if n >= 1_000_000 {
        let mut s = u128_to_string((n / 1_000_000) as u128);
        s.append(frac_string(n % 1_000_000, 6).as_str());
        s.append("ms");
        s
    } else if n >= 1_000 {
        let mut s = u128_to_string((n / 1_000) as u128);
        s.append(frac_string(n % 1_000, 3).as_str());
        s.append("\u{b5}s");
        s
    } else {
        let mut s = u128_to_string(n as u128);
        s.append("ns");
        s
    }
}

// ---------------------------------------------------------------------------
// Path classifier
// ---------------------------------------------------------------------------
/// The platform recycle-bin marker; a path holding it is never a candidate.
pub open spec fn recycle_marker() -> Seq<char> {
    "$RECYCLE.BIN"@
}

/// `pat` occurs in `s` starting at position `i`.
pub open spec fn matches_at(s: Seq<char>, pat: Seq<char>, i: int) -> bool {
    forall|j: int| 0 <= j < pat.len() ==> s[i + j] == pat[j]
}

/// `pat` occurs somewhere in `s`.
pub open spec fn contains_seq(s: Seq<char>, pat: Seq<char>) -> bool {
    exists|i: int| 0 <= i && i + pat.len() <= s.len() && matches_at(s, pat, i)
}

/// A discovered path is a candidate unless it is the target directory
/// itself or holds the recycle-bin marker.
pub open spec fn spec_is_candidate(path: Seq<char>, target: Seq<char>) -> bool {
    path != target && !contains_seq(path, recycle_marker())
}

/// Whether `pat` occurs in `s` starting at position `i`.
fn match_at(s: &String, pat: &str, i: usize) -> (r: bool)
    requires
        i + pat@.len() <= s@.len(),
        s@.len() <= usize::MAX,
    ensures
        r == matches_at(s@, pat@, i as int),
{
    let m = pat.unicode_len();
    let mut j: usize = 0;
    while j < m
        invariant
            i + m <= s@.len(),
            s@.len() <= usize::MAX,
            m == pat@.len(),
            j <= m,
            forall|jj: int| 0 <= jj < j ==> s@[i + jj] == pat@[jj],
        decreases m - j,
    {
        if s.as_str().get_char(i + j) != pat.get_char(j) {
            assert(!matches_at(s@, pat@, i as int));
            return false;
        }
        j += 1;
    }
    true
}

/// Whether `pat` occurs in `s`, by scanning every start position.
fn contains_pattern(s: &String, pat: &str) -> (r: bool)
    ensures
        r == contains_seq(s@, pat@),
{
    let n = s.as_str().unicode_len();
    let m = pat.unicode_len();
    if m > n {
        assert(!contains_seq(s@, pat@));
        return false;
    }
    let mut i: usize = 0;
    while i <= n - m
        invariant
            m <= n,
            n == s@.len(),
            m == pat@.len(),
            i <= n - m + 1,
            forall|ii: int| 0 <= ii < i ==> !matches_at(s@, pat@, ii),
        decreases n - i,
    {
        if match_at(s, pat, i) {
            assert(contains_seq(s@, pat@));
            return true;
        }
        i += 1;
    }
    assert forall|ii: int| 0 <= ii && ii + pat@.len() <= s@.len() implies !matches_at(
        s@,
        pat@,
        ii,
    ) by {
        assert(ii < i);
    }
    false
}

/// Whether the distribution stage forwards a discovered path to a worker
/// lane: the order's target directory and recycle-bin paths are dropped,
/// every other file is accepted.
pub fn is_candidate(path: &String, target: &String) -> (r: bool)
    ensures
        r == spec_is_candidate(path@, target@),
{
    if *path == *target {
        false
    } else {
        !contains_pattern(path, "$RECYCLE.BIN")
    }
}

// ---------------------------------------------------------------------------
// Distribution stage
// ---------------------------------------------------------------------------
/// The lane the distribution stage assigns to the candidate with this
/// sequence number: fixed round-robin over the worker lanes.
pub fn lane_for(counter: usize, worker_count: usize) -> (lane: usize)
    requires
        worker_count >= 1,
    ensures
        lane == counter % worker_count,
        lane < worker_count,
{
    counter % worker_count
}

/// How many of the first `n` candidates round-robin sends to lane `i`:
/// one for every sequence number below `n` that is `i` modulo `k`.
pub open spec fn assigned_count(n: nat, k: nat, i: nat) -> nat
    decreases n,
{
    if n == 0 {
        0
    } else {
        assigned_count((n - 1) as nat, k, i) + if (n - 1) as nat % k == i {
            1nat
        } else {
            0nat
        }
    }
}

/// The inner sequences of a sequence of vectors.
pub open spec fn views_of<A>(ls: Seq<Vec<A>>) -> Seq<Seq<A>> {
    ls.map_values(|v: Vec<A>| v@)
}

/// Everything held across a sequence of lanes, as one multiset.
pub open spec fn lanes_mset<A>(lanes: Seq<Seq<A>>) -> Multiset<A>
    decreases lanes.len(),
{
    if lanes.len() == 0 {
        Multiset::empty()
    } else {
        lanes_mset(lanes.drop_last()).add(lanes.last().to_multiset())
    }
}

proof fn lemma_lanes_mset_all_empty<A>(lanes: Seq<Seq<A>>)
    requires
        forall|i: int| 0 <= i < lanes.len() ==> lanes[i].len() == 0,
    ensures
        lanes_mset(lanes) =~= Multiset::<A>::empty(),
    decreases lanes.len(),
{
    broadcast use group_to_multiset_ensures;

    if lanes.len() > 0 {
        lemma_lanes_mset_all_empty(lanes.drop_last());
        assert forall|a: A| lanes.last().to_multiset().count(a) == 0 by {
            assert(!lanes.last().contains(a));
        }
    }
}

/// Pushing one element onto lane `l` adds exactly that element to the
/// multiset of everything held across the lanes.
proof fn lemma_lanes_mset_push<A>(lanes: Seq<Seq<A>>, l: int, x: A)
    requires
        0 <= l < lanes.len(),
    ensures
        lanes_mset(lanes.update(l, lanes[l].push(x))) =~= lanes_mset(lanes).insert(x),
    decreases lanes.len(),
{
    broadcast use group_to_multiset_ensures;

    let updated = lanes.update(l, lanes[l].push(x));
    if l == lanes.len() - 1 {
        assert(updated.drop_last() =~= lanes.drop_last());
        assert(updated.last() == lanes.last().push(x));
    } else {
        assert(updated.drop_last() =~= lanes.drop_last().update(l, lanes.drop_last()[l].push(x)));
        assert(updated.last() == lanes.last());
        lemma_lanes_mset_push(lanes.drop_last(), l, x);
    }
}

/// Closed form of `assigned_count`: lane `i` holds `n / k` items, plus one
/// more when `i` is among the first `n % k` lanes.
pub proof fn lemma_assigned_count_formula(n: nat, k: nat, i: nat)
    requires
        k >= 1,
        i < k,
    ensures
        assigned_count(n, k, i) == n / k + if i < n % k {
            1int
        } else {
            0int
        },
    decreases n,
{
    if n == 0 {
    } else {
        let m = (n - 1) as nat;
        lemma_assigned_count_formula(m, k, i);
        lemma_fundamental_div_mod(m as int, k as int);
        let q = m as int / k as int;
        let r = m as int % k as int;
        assert(q * k as int == k as int * q) by (nonlinear_arith);
        if r == k - 1 {
            assert((q + 1) * k as int == k as int * q + k as int) by (nonlinear_arith);
            lemma_fundamental_div_mod_converse(n as int, k as int, q + 1, 0);
        } else {
            lemma_fundamental_div_mod_converse(n as int, k as int, q, r + 1);
        }
    }
}

/// Distribution fairness: with `m` candidates and `k` lanes, round-robin
/// hands every lane either `floor(m / k)` or `ceil(m / k)` items.
pub proof fn lemma_distribution_fairness(m: nat, k: nat, i: nat)
    requires
        k >= 1,
        i < k,
    ensures
        assigned_count(m, k, i) == m / k || assigned_count(m, k, i) == (m + k - 1) / k as int,
        assigned_count(m, k, i) <= (m + k - 1) / k as int,
        m / k <= assigned_count(m, k, i),
{
    lemma_assigned_count_formula(m, k, i);
    lemma_fundamental_div_mod(m as int, k as int);
    let q = m as int / k as int;
    let r = m as int % k as int;
    if r == 0 {
        lemma_fundamental_div_mod_converse((m + k - 1) as int, k as int, q, k as int - 1);
    } else {
        assert(k as int * (q + 1) == k as int * q + k as int) by (nonlinear_arith);
        lemma_fundamental_div_mod_converse((m + k - 1) as int, k as int, q + 1, r - 1);
    }
}

proof fn lemma_filter_to_multiset<A>(s: Seq<A>, p: spec_fn(A) -> bool)
    ensures
        s.filter(p).to_multiset() =~= s.to_multiset().filter(p),
    decreases s.len(),
{
    broadcast use group_to_multiset_ensures;
    broadcast use vstd::multiset::group_multiset_axioms;

    reveal(Seq::filter);
    if s.len() == 0 {
        assert forall|a: A| s.to_multiset().count(a) == 0 by {
            assert(!s.contains(a));
        }
    } else {
        lemma_filter_to_multiset(s.drop_last(), p);
        assert(s =~= s.drop_last().push(s.last()));
        assert(s.to_multiset() =~= s.drop_last().to_multiset().insert(s.last()));
    }
}

/// What the worker stage keeps over a sequence of lanes, as one multiset:
/// each lane contributes exactly its items that decode.
pub open spec fn lanes_kept_mset<A>(lanes: Seq<Seq<A>>, ok: spec_fn(A) -> bool) -> Multiset<A>
    decreases lanes.len(),
{
    if lanes.len() == 0 {
        Multiset::empty()
    } else {
        lanes_kept_mset(lanes.drop_last(), ok).add(lanes.last().filter(ok).to_multiset())
    }
}

proof fn lemma_lanes_kept_is_filter<A>(lanes: Seq<Seq<A>>, ok: spec_fn(A) -> bool)
    ensures
        lanes_kept_mset(lanes, ok) =~= lanes_mset(lanes).filter(ok),
    decreases lanes.len(),
{
    broadcast use vstd::multiset::group_multiset_axioms;

    if lanes.len() == 0 {
    } else {
        lemma_lanes_kept_is_filter(lanes.drop_last(), ok);
        lemma_filter_to_multiset(lanes.last(), ok);
    }
}

/// Exactly-once processing: when the lanes together hold exactly the
/// candidate list (what `distribute` ensures), the items the workers keep,
/// over all lanes together, are exactly the candidates that decode - one
/// kept item for every decodable candidate, none for the others.
pub proof fn lemma_pipeline_exactly_once<A>(
    candidates: Seq<A>,
    lanes: Seq<Seq<A>>,
    ok: spec_fn(A) -> bool,
)
    requires
        lanes_mset(lanes) == candidates.to_multiset(),
    ensures
        lanes_kept_mset(lanes, ok) == candidates.filter(ok).to_multiset(),
{
    lemma_lanes_kept_is_filter(lanes, ok);
    lemma_filter_to_multiset(candidates, ok);
}

/// The distribution stage's routing, applied to a whole candidate list:
/// candidate number `c` goes to lane `c % worker_count`, so lane `t` holds
/// the candidates numbered `t`, `t + k`, `t + 2k`, ... in that order, and
/// nothing is dropped or duplicated.
pub fn distribute(candidates: &Vec<String>, worker_count: usize) -> (lanes: Vec<Vec<String>>)
    requires
        worker_count >= 1,
    ensures
        lanes@.len() == worker_count,
        forall|t: int|
            0 <= t < worker_count ==> (#[trigger] lanes@[t])@.len() == assigned_count(
                candidates@.len(),
                worker_count as nat,
                t as nat,
            ),
        forall|t: int, j: int|
            0 <= t < worker_count && 0 <= j < lanes@[t]@.len() ==> (#[trigger] lanes@[t]@[j])
                == candidates@[j * (worker_count as int) + t],
        lanes_mset(views_of(lanes@)) == candidates@.to_multiset(),
{
    broadcast use group_to_multiset_ensures;

    let k = worker_count;
    let mut lanes: Vec<Vec<String>> = Vec::new();
    let mut t: usize = 0;
    while t < k
        invariant
            t <= k,
            lanes@.len() == t,
            forall|u: int| 0 <= u < t ==> (#[trigger] lanes@[u])@.len() == 0,
        decreases k - t,
    {
        lanes.push(Vec::new());
        t += 1;
    }
    proof {
        lemma_lanes_mset_all_empty(views_of(lanes@));
        assert(candidates@.take(0).to_multiset() =~= Multiset::<String>::empty());
    }
    let mut c: usize = 0;
    while c < candidates.len()
        invariant
            worker_count >= 1,
            k == worker_count,
            lanes@.len() == k,
            c <= candidates@.len(),
            forall|u: int|
                0 <= u < k ==> (#[trigger] lanes@[u])@.len() == assigned_count(
                    c as nat,
                    k as nat,
                    u as nat,
                ),
            forall|u: int, j: int|
                0 <= u < k && 0 <= j < lanes@[u]@.len() ==> (#[trigger] lanes@[u]@[j])
                    == candidates@[j * (k as int) + u],
            lanes_mset(views_of(lanes@)) == candidates@.take(c as int).to_multiset(),
        decreases candidates@.len() - c,
    {
        broadcast use group_to_multiset_ensures;

        let ghost prev = lanes@;
        let lane = c % k;
        let x = candidates[c].clone();
        proof {
            lemma_assigned_count_formula(c as nat, k as nat, lane as nat);
            lemma_fundamental_div_mod(c as int, k as int);
        }
        lanes[lane].push(x);
        proof {
            assert(views_of(lanes@) =~= views_of(prev).update(
                lane as int,
                views_of(prev)[lane as int].push(candidates@[c as int]),
            ));
            lemma_lanes_mset_push(views_of(prev), lane as int, candidates@[c as int]);
            assert(candidates@.take(c + 1) =~= candidates@.take(c as int).push(
                candidates@[c as int],
            ));
            let kk = k as int;
            let cc = c as int;
            assert((cc / kk) * kk + cc % kk == cc) by {
                lemma_fundamental_div_mod(cc, kk);
                assert(kk * (cc / kk) == (cc / kk) * kk) by (nonlinear_arith);
            }
            assert forall|u: int, j: int|
                0 <= u < k && 0 <= j < lanes@[u]@.len() implies (#[trigger] lanes@[u]@[j])
                == candidates@[j * kk + u] by {
                if u == lane as int && j == prev[u]@.len() {
                    assert(j == cc / kk);
                    assert(lanes@[u]@[j] == candidates@[cc]);
                } else {
                    assert(lanes@[u]@[j] == prev[u]@[j]);
                }
            }
        }
        c += 1;
    }
    proof {
        assert(candidates@.take(candidates@.len() as int) =~= candidates@);
    }
    lanes
}

/// Whether a discovered path is forwarded at all, given the order's target
/// directory.
pub open spec fn candidate_pred(target: Seq<char>) -> spec_fn(String) -> bool {
    |p: String| spec_is_candidate(p@, target)
}

/// The whole distribution stage over one discovery output: the classifier
/// drops the target directory and recycle-bin paths, and the surviving
/// candidates go round-robin to the worker lanes, in discovery order.
pub fn filter_and_distribute(paths: &Vec<String>, target: &String, worker_count: usize) -> (lanes:
    Vec<Vec<String>>)
    requires
        worker_count >= 1,
    ensures
        lanes@.len() == worker_count,
        forall|t: int|
            0 <= t < worker_count ==> (#[trigger] lanes@[t])@.len() == assigned_count(
                paths@.filter(candidate_pred(target@)).len(),
                worker_count as nat,
                t as nat,
            ),
        forall|t: int, j: int|
            0 <= t < worker_count && 0 <= j < lanes@[t]@.len() ==> (#[trigger] lanes@[t]@[j])
                == paths@.filter(candidate_pred(target@))[j * (worker_count as int) + t],
        lanes_mset(views_of(lanes@)) == paths@.filter(candidate_pred(target@)).to_multiset(),
{
    broadcast use Seq::lemma_filter_push;

    let ghost pred = candidate_pred(target@);
    let mut candidates: Vec<String> = Vec::new();
    let mut i: usize = 0;
    while i < paths.len()
        invariant
            i <= paths@.len(),
            pred == candidate_pred(target@),
            candidates@ == paths@.take(i as int).filter(pred),
        decreases paths@.len() - i,
    {
        proof {
            assert(paths@.take(i + 1) =~= paths@.take(i as int).push(paths@[i as int]));
            paths@.take(i as int).lemma_filter_push(paths@[i as int], pred);
            assert(pred(paths@[i as int]) == spec_is_candidate(paths@[i as int]@, target@));
        }
        if is_candidate(&paths[i], target) {
            candidates.push(paths[i].clone());
        }
        i += 1;
    }
    proof {
        assert(paths@.take(paths@.len() as int) =~= paths@);
    }
    distribute(&candidates, worker_count)
}

// ---------------------------------------------------------------------------
// Worker stage
// ---------------------------------------------------------------------------
/// What a worker sends after handling one candidate: a result message for a
/// written thumbnail, and nothing for a failed decode (the item is skipped).
pub fn worker_step(outcome: Result<String, crate::ThumbError>, original: &String) -> (r: Option<
    ThumbnailerToApp,
>)
    ensures
        match outcome {
            Ok(thumb) => r matches Some(msg) && msg matches ThumbnailerToApp::CreatedThumbnail(p)
                && p.thumbnail@ == thumb@ && p.original@ == original@,
            Err(_) => r is None,
        },
{
    match outcome {
        Ok(thumb) => Some(
            ThumbnailerToApp::CreatedThumbnail(
                ThumbnailPaths { thumbnail: thumb, original: original.clone() },
            ),
        ),
        Err(_) => None,
    }
}

// ---------------------------------------------------------------------------
// Pipeline controller
// ---------------------------------------------------------------------------
/// The controller's two states: accepting orders, or done for good.
#[derive(Debug, Clone, Copy, PartialEq, Eq, Structural)]
pub enum ControllerState {
    Running { next_order_id: usize },
    Terminated,
}

/// What the controller asks its surroundings to do after one step.
#[derive(Debug)]
pub enum ControllerAction {
    /// Start a supervised run for this order, under this order id.
    SpawnOrder(LoadData, usize),
    /// Leave the receive loop; the controller thread returns.
    Stop,
}

/// One step of the controller's receive loop. The event is the received
/// command, or `None` when the command channel has closed. An order spawns
/// a supervisor and bumps the order id; `KillCmd` and channel closure both
/// terminate the controller at once, without touching in-flight orders.
pub fn controller_step(state: ControllerState, event: Option<AppToThumbnailer>) -> (r: (
    ControllerState,
    ControllerAction,
))
    requires
        state matches ControllerState::Running { next_order_id } && next_order_id < usize::MAX,
    ensures
        match event {
            Some(AppToThumbnailer::ThumbnailOrder(order)) => {
                &&& r.0 == (ControllerState::Running {
                    next_order_id: (state->next_order_id + 1) as usize,
                })
                &&& r.1 matches ControllerAction::SpawnOrder(o, id) && o == order && id
                    == state->next_order_id
            },
            Some(AppToThumbnailer::KillCmd) => r.0 is Terminated && r.1 is Stop,
            None => r.0 is Terminated && r.1 is Stop,
        },
{
    let id = match state {
        ControllerState::Running { next_order_id } => next_order_id,
        ControllerState::Terminated => 0,
    };
    match event {
        Some(AppToThumbnailer::ThumbnailOrder(order)) => {
            (
                ControllerState::Running { next_order_id: id + 1 },
                ControllerAction::SpawnOrder(order, id),
            )
        },
        Some(AppToThumbnailer::KillCmd) => (ControllerState::Terminated, ControllerAction::Stop),
        None => (ControllerState::Terminated, ControllerAction::Stop),
    }
}

// ---------------------------------------------------------------------------
// Thumbnail codec adapter
// ---------------------------------------------------------------------------
#[verifier::external_type_specification]
#[verifier::external_body]
pub struct ExDynamicImage(image::DynamicImage);

#[verifier::external_type_specification]
#[verifier::external_body]
pub struct ExImageError(image::error::ImageError);

/// The color model of a decoded image, as far as the codec's decisions go.
#[derive(Debug, Clone, Copy, PartialEq, Eq, Structural)]
pub enum PixelKind {
    L8,
    La8,
    Rgb8,
    Rgba8,
    L16,
    La16,
    Rgb16,
    Rgba16,
    Rgb32F,
    Rgba32F,
    Other,
}

/// The 8-bit color model a wide model is narrowed to before encoding.
#[derive(Debug, Clone, Copy, PartialEq, Eq, Structural)]
pub enum NarrowTo {
    Luma8,
    LumaA8,
    Rgb8,
    Rgba8,
}

/// The codec's narrowing decision: the output container does not hold
/// 16-bit or floating-point color, so those models go to their nearest
/// 8-bit equivalent; everything else is left alone.
pub open spec fn spec_narrow_plan(kind: PixelKind) -> Option<NarrowTo> {
    match kind {
        PixelKind::L16 => Some(NarrowTo::Luma8),
        PixelKind::La16 => Some(NarrowTo::LumaA8),
        PixelKind::Rgb16 => Some(NarrowTo::Rgb8),
        PixelKind::Rgb32F => Some(NarrowTo::Rgb8),
        PixelKind::Rgba16 => Some(NarrowTo::Rgba8),
        PixelKind::Rgba32F => Some(NarrowTo::Rgba8),
        _ => None,
    }
}

/// The narrowing applied to each color model, if any.
pub fn narrow_plan(kind: PixelKind) -> (r: Option<NarrowTo>)
    ensures
        r == spec_narrow_plan(kind),
{
    match kind {
        PixelKind::L16 => Some(NarrowTo::Luma8),
        PixelKind::La16 => Some(NarrowTo::LumaA8),
        PixelKind::Rgb16 => Some(NarrowTo::Rgb8),
        PixelKind::Rgb32F => Some(NarrowTo::Rgb8),
        PixelKind::Rgba16 => Some(NarrowTo::Rgba8),
        PixelKind::Rgba32F => Some(NarrowTo::Rgba8),
        _ => None,
    }
}

/// Relies on image::io::Reader::open and Reader::decode: opens the file at
/// `path`, guesses the format from its extension, and decodes it. What
/// comes back depends on the file on disk, so nothing more is promised.
#[verifier::external_body]
fn decode_image(path: &String) -> Result<image::DynamicImage, image::error::ImageError> {
    match image::io::Reader::open(path.as_str()) {
        Ok(reader) => reader.decode(),
        Err(e) => Err(image::error::ImageError::IoError(e)),
    }
}

/// Relies on DynamicImage::color: names the decoded color model, one arm
/// per model the codec distinguishes.
#[verifier::external_body]
fn color_kind(img: &image::DynamicImage) -> PixelKind {
    match img.color() {
        image::ColorType::L8 => PixelKind::L8,
        image::ColorType::La8 => PixelKind::La8,
        image::ColorType::Rgb8 => PixelKind::Rgb8,
        image::ColorType::Rgba8 => PixelKind::Rgba8,
        image::ColorType::L16 => PixelKind::L16,
        image::ColorType::La16 => PixelKind::La16,
        image::ColorType::Rgb16 => PixelKind::Rgb16,
        image::ColorType::Rgba16 => PixelKind::Rgba16,
        image::ColorType::Rgb32F => PixelKind::Rgb32F,
        image::ColorType::Rgba32F => PixelKind::Rgba32F,
        _ => PixelKind::Other,
    }
}

/// Relies on DynamicImage::into_luma8, which keeps the dimensions.
#[verifier::external_body]
fn narrow_to_luma8(img: image::DynamicImage) -> image::DynamicImage {
    image::DynamicImage::ImageLuma8(img.into_luma8())
}

/// Relies on DynamicImage::into_luma_alpha8, which keeps the dimensions.
#[verifier::external_body]
fn narrow_to_luma_alpha8(img: image::DynamicImage) -> image::DynamicImage {
    image::DynamicImage::ImageLumaA8(img.into_luma_alpha8())
}

/// Relies on DynamicImage::into_rgb8, which keeps the dimensions.
#[verifier::external_body]
fn narrow_to_rgb8(img: image::DynamicImage) -> image::DynamicImage {
    image::DynamicImage::ImageRgb8(img.into_rgb8())
}

/// Relies on DynamicImage::into_rgba8, which keeps the dimensions.
#[verifier::external_body]
fn narrow_to_rgba8(img: image::DynamicImage) -> image::DynamicImage {
    image::DynamicImage::ImageRgba8(img.into_rgba8())
}

/// Relies on DynamicImage::thumbnail: each side of the result is at least
/// 1 and fits its bound whenever that bound is at least 1 (the resize
/// arithmetic rounds a ratio that never exceeds the bound for 32-bit
/// dimensions), and both sides are the same rounding of one common scale of
/// the input's sides, so each differs from the exactly scaled value by less
/// than one - which bounds the cross product of the two aspect ratios.
/// Returns the resized image and its dimensions, then the input's
/// dimensions.
#[verifier::external_body]
fn shrink_to_bounds(img: &image::DynamicImage, max_x: u32, max_y: u32) -> (r: (
    image::DynamicImage,
    u32,
    u32,
    u32,
    u32,
))
    ensures
        r.1 >= 1,
        r.2 >= 1,
        max_x >= 1 ==> r.1 <= max_x,
        max_y >= 1 ==> r.2 <= max_y,
        r.1 * r.4 - r.2 * r.3 <= r.3 + r.4,
        r.2 * r.3 - r.1 * r.4 <= r.3 + r.4,
{
    let source_w = img.width();
    let source_h = img.height();
    let t = img.thumbnail(max_x, max_y);
    let w = t.width();
    let h = t.height();
    (t, w, h, source_w, source_h)
}

/// Relies on DynamicImage::save_with_format: encodes the image as a PNG
/// file at `path`. Success depends on the disk, so nothing more is
/// promised.
#[verifier::external_body]
fn save_png(img: &image::DynamicImage, path: &String) -> Result<(), image::error::ImageError> {
    img.save_with_format(path.as_str(), image::ImageFormat::Png)
}

/// Relies on std::path::Path::read_dir: the entry names the directory
/// holds right now, converted to plain strings (a name that is not UTF-8,
/// and hence can never equal a generated output name, is left out). What
/// comes back depends on the disk, so nothing is promised of it.
#[verifier::external_body]
fn list_dir_names(dir: &String) -> Vec<String> {
    let mut names: Vec<String> = Vec::new();
    if let Ok(rd) = std::path::Path::new(dir.as_str()).read_dir() {
        for entry in rd {
            if let Ok(entry) = entry {
                if let Some(name) = entry.file_name().to_str() {
                    names.push(String::from(name));
                }
            }
        }
    }
    names
}

impl crate::LoadFromPath for image::DynamicImage {
    /// Decodes the file at `path`; one that cannot be opened or decoded is
    /// a decode error.
    fn load_from_path(path: &str) -> Result<Self, crate::ThumbError> {
        match decode_image(&path.to_owned()) {
            Ok(img) => Ok(img),
            Err(_) => Err(crate::ThumbError::Decode),
        }
    }
}

/// One produced thumbnail: the resized image with its dimensions, and the
/// dimensions of the image it was resized from.
pub struct ThumbImage {
    pub image: image::DynamicImage,
    pub width: u32,
    pub height: u32,
    pub source_width: u32,
    pub source_height: u32,
}

/// The codec adapter: decodes the image at `path`, narrows a wide color
/// model to its 8-bit equivalent, and resizes so that neither dimension
/// exceeds its bound, preserving the aspect ratio within rounding. A file
/// that cannot be opened or decoded is reported as a decode error, never a
/// panic. On success the dimensions are never 0, fit each bound that is at
/// least 1, and the output and source aspect ratios agree within one
/// rounding step on each side.
pub fn generate_thumbnail_from_image(path: &String, max_x: u32, max_y: u32) -> (r: Result<
    ThumbImage,
    crate::ThumbError,
>)
    ensures
        r matches Ok(t) ==> {
            &&& t.width >= 1 && t.height >= 1
            &&& max_x >= 1 ==> t.width <= max_x
            &&& max_y >= 1 ==> t.height <= max_y
            &&& t.width * t.source_height - t.height * t.source_width <= t.source_width
                + t.source_height
            &&& t.height * t.source_width - t.width * t.source_height <= t.source_width
                + t.source_height
        },
        r matches Err(e) ==> e == crate::ThumbError::Decode,
{
    let img = match decode_image(path) {
        Ok(img) => img,
        Err(_) => {
            return Err(crate::ThumbError::Decode);
        },
    };
    let kind = color_kind(&img);
    let img = match narrow_plan(kind) {
        None => img,
        Some(NarrowTo::Luma8) => narrow_to_luma8(img),
        Some(NarrowTo::LumaA8) => narrow_to_luma_alpha8(img),
        Some(NarrowTo::Rgb8) => narrow_to_rgb8(img),
        Some(NarrowTo::Rgba8) => narrow_to_rgba8(img),
    };
    let (t, w, h, source_w, source_h) = shrink_to_bounds(&img, max_x, max_y);
    Ok(ThumbImage { image: t, width: w, height: h, source_width: source_w, source_height: source_h })
}

// ---------------------------------------------------------------------------
// Output naming
// ---------------------------------------------------------------------------
/// A path separator.
pub open spec fn is_sep(c: char) -> bool {
    c == '/' || c == '\\'
}

/// The suffix of `path` after its last separator; the whole of `path` when
/// it has none.
pub open spec fn spec_after_last_sep(path: Seq<char>) -> Seq<char>
    decreases path.len(),
{
    if path.len() == 0 {
        path
    } else if is_sep(path.last()) {
        Seq::empty()
    } else {
        spec_after_last_sep(path.drop_last()).push(path.last())
    }
}

/// `path` with its trailing separators removed.
pub open spec fn spec_strip_seps(path: Seq<char>) -> Seq<char>
    decreases path.len(),
{
    if path.len() > 0 && is_sep(path.last()) {
        spec_strip_seps(path.drop_last())
    } else {
        path
    }
}

/// The last path component: the suffix of `path` after its last separator,
/// trailing separators ignored.
pub open spec fn spec_last_component(path: Seq<char>) -> Seq<char> {
    spec_after_last_sep(spec_strip_seps(path))
}

/// A component that names no file: empty, the current directory or the
/// parent directory.
pub open spec fn spec_dot_name(n: Seq<char>) -> bool {
    n.len() == 0 || n == "."@ || n == ".."@
}

/// The file-name portion of `path`: its last component, or a placeholder
/// when that component names no file.
pub open spec fn spec_file_name(path: Seq<char>) -> Seq<char> {
    if spec_dot_name(spec_last_component(path)) {
        "no_name"@
    } else {
        spec_last_component(path)
    }
}

/// The `i`th output name derived from a source file's base name: the base
/// with a fixed `.png` extension, then `_1`, `_2`, ... before the extension.
pub open spec fn spec_nth_name(base: Seq<char>, i: nat) -> Seq<char> {
    if i == 0 {
        base + ".png"@
    } else {
        base + "_"@ + dec_digits(i) + ".png"@
    }
}

/// `dir` and `name` joined into one path.
pub open spec fn spec_joined(dir: Seq<char>, name: Seq<char>) -> Seq<char> {
    dir + "/"@ + name
}

proof fn lemma_after_last_sep(s: Seq<char>, i: int)
    requires
        0 <= i <= s.len(),
        forall|j: int| i <= j < s.len() ==> !is_sep(#[trigger] s[j]),
        i > 0 ==> is_sep(s[i - 1]),
    ensures
        spec_after_last_sep(s) == s.subrange(i, s.len() as int),
    decreases s.len(),
{
    if i == s.len() {
        if s.len() == 0 {
            assert(spec_after_last_sep(s) =~= s.subrange(i, s.len() as int));
        } else {
            assert(is_sep(s.last()));
            assert(spec_after_last_sep(s) =~= s.subrange(i, s.len() as int));
        }
    } else {
        assert(!is_sep(s.last()));
        lemma_after_last_sep(s.drop_last(), i);
        assert(s.drop_last().subrange(i, s.drop_last().len() as int).push(s.last()) =~= s.subrange(
            i,
            s.len() as int,
        ));
    }
}

proof fn lemma_strip_seps(s: Seq<char>, e: int)
    requires
        0 <= e <= s.len(),
        forall|j: int| e <= j < s.len() ==> is_sep(#[trigger] s[j]),
        e > 0 ==> !is_sep(s[e - 1]),
    ensures
        spec_strip_seps(s) == s.subrange(0, e),
    decreases s.len(),
{
    if e == s.len() {
        assert(spec_strip_seps(s) =~= s.subrange(0, e));
    } else {
        assert(is_sep(s.last()));
        lemma_strip_seps(s.drop_last(), e);
        assert(s.drop_last().subrange(0, e) =~= s.subrange(0, e));
    }
}

fn is_sep_char(c: char) -> (r: bool)
    ensures
        r == is_sep(c),
{
    c == '/' || c == '\\'
}

/// Where the last component of `path` stands: the bounds of the suffix
/// after the last separator, trailing separators excluded.
fn component_bounds(path: &String) -> (r: (usize, usize))
    ensures
        r.0 <= r.1 <= path@.len(),
        path@.len() <= usize::MAX,
        spec_last_component(path@) == path@.subrange(r.0 as int, r.1 as int),
{
    let n = path.as_str().unicode_len();
    let mut end: usize = n;
    while end > 0 && is_sep_char(path.as_str().get_char(end - 1))
        invariant
            end <= n,
            n == path@.len(),
            forall|j: int| end <= j < n ==> is_sep(#[trigger] path@[j]),
        decreases end,
    {
        end -= 1;
    }
    let mut st: usize = end;
    while st > 0 && !is_sep_char(path.as_str().get_char(st - 1))
        invariant
            st <= end <= n,
            n == path@.len(),
            forall|j: int| st <= j < end ==> !is_sep(#[trigger] path@[j]),
        decreases st,
    {
        st -= 1;
    }
    proof {
        lemma_strip_seps(path@, end as int);
        let stripped = path@.subrange(0, end as int);
        assert forall|j: int| st <= j < stripped.len() implies !is_sep(#[trigger] stripped[j]) by {
            assert(stripped[j] == path@[j]);
        }
        lemma_after_last_sep(stripped, st as int);
        assert(stripped.subrange(st as int, end as int) =~= path@.subrange(st as int, end as int));
    }
    (st, end)
}

/// Whether the range `[st, end)` of `path` is a component that names no
/// file.
fn is_dot_name_range(path: &String, st: usize, end: usize) -> (r: bool)
    requires
        st <= end <= path@.len(),
        path@.len() <= usize::MAX,
    ensures
        r == spec_dot_name(path@.subrange(st as int, end as int)),
{
    proof {
        reveal_strlit(".");
        reveal_strlit("..");
        assert("."@.len() == 1 && "."@[0] == '.');
        assert(".."@.len() == 2 && ".."@[0] == '.' && ".."@[1] == '.');
    }
    let ghost comp = path@.subrange(st as int, end as int);
    let len = end - st;
    if len == 0 {
        true
    } else if len == 1 {
        let r = path.as_str().get_char(st) == '.';
        proof {
            if path@[st as int] == '.' {
                assert(comp =~= "."@);
            } else {
                assert(comp[0] != '.');
                assert(comp != "."@);
            }
        }
        r
    } else if len == 2 {
        let r = path.as_str().get_char(st) == '.' && path.as_str().get_char(st + 1) == '.';
        proof {
            if path@[st as int] == '.' && path@[st + 1] == '.' {
                assert(comp =~= ".."@);
            } else {
                assert(comp[0] != '.' || comp[1] != '.');
                assert(comp != ".."@);
            }
        }
        r
    } else {
        proof {
            assert(comp.len() >= 3);
        }
        false
    }
}

/// The file-name portion of a source path, from which output names are
/// derived, as the platform reads it: the last component, with trailing
/// separators ignored; a component that names no file gets a placeholder.
pub fn file_name_of(path: &String) -> (name: String)
    ensures
        name@ == spec_file_name(path@),
{
    let (st, end) = component_bounds(path);
    if is_dot_name_range(path, st, end) {
        String::from_str("no_name")
    } else {
        path.as_str().substring_char(st, end).to_owned()
    }
}

/// The `i`th candidate output name for a base name.
pub fn nth_name(base: &String, i: usize) -> (name: String)
    ensures
        name@ == spec_nth_name(base@, i as nat),
{
    let mut name = base.clone();
    if i == 0 {
        name.append(".png");
    } else {
        name.append("_");
        name.append(u128_to_string(i as u128).as_str());
        name.append(".png");
    }
    name
}

/// `dir` and `name` joined into one path.
pub fn dir_join(dir: &String, name: &String) -> (p: String)
    ensures
        p@ == spec_joined(dir@, name@),
{
    let mut p = dir.clone();
    p.append("/");
    p.append(name.as_str());
    p
}

proof fn lemma_dec_digits_len(n: nat)
    ensures
        dec_digits(n).len() >= 1,
        n >= 10 ==> dec_digits(n).len() >= 2,
    decreases n,
{
    if n >= 10 {
        lemma_dec_digits_len(n / 10);
    }
}

proof fn lemma_dec_digits_injective(a: nat, b: nat)
    requires
        dec_digits(a) == dec_digits(b),
    ensures
        a == b,
    decreases a,
{
    lemma_dec_digits_len(a);
    lemma_dec_digits_len(b);
    if a < 10 && b < 10 {
        assert(seq![digit_char(a)][0] == digit_char(a));
        assert(seq![digit_char(b)][0] == digit_char(b));
        assert(digit_char(a) == digit_char(b));
    } else if a < 10 || b < 10 {
        assert(dec_digits(a).len() != dec_digits(b).len());
    } else {
        assert(dec_digits(a).last() == digit_char(a % 10));
        assert(dec_digits(b).last() == digit_char(b % 10));
        assert(digit_char(a % 10) == digit_char(b % 10));
        assert(a % 10 == b % 10);
        assert(dec_digits(a / 10).push(digit_char(a % 10)).drop_last() =~= dec_digits(a / 10));
        assert(dec_digits(b / 10).push(digit_char(b % 10)).drop_last() =~= dec_digits(b / 10));
        assert(dec_digits(a / 10) == dec_digits(b / 10));
        lemma_dec_digits_injective(a / 10, b / 10);
        lemma_fundamental_div_mod(a as int, 10);
        lemma_fundamental_div_mod(b as int, 10);
    }
}

proof fn lemma_nth_name_injective(base: Seq<char>, i: nat, j: nat)
    requires
        spec_nth_name(base, i) == spec_nth_name(base, j),
    ensures
        i == j,
{
    broadcast use vstd::string::group_string_axioms;

    reveal_strlit(".png");
    reveal_strlit("_");
    if i != j {
        if i == 0 || j == 0 {
            let nz = if i == 0 {
                j
            } else {
                i
            };
            lemma_dec_digits_len(nz);
            assert(spec_nth_name(base, 0).len() == base.len() + 4);
            assert(spec_nth_name(base, nz).len() == base.len() + 1 + dec_digits(nz).len() + 4);
        } else {
            let di = dec_digits(i);
            let dj = dec_digits(j);
            assert(spec_nth_name(base, i).len() == base.len() + 1 + di.len() + 4);
            assert(spec_nth_name(base, j).len() == base.len() + 1 + dj.len() + 4);
            assert(di.len() == dj.len());
            assert forall|t: int| 0 <= t < di.len() implies di[t] == dj[t] by {
                assert(spec_nth_name(base, i)[base.len() + 1 + t] == di[t]);
                assert(spec_nth_name(base, j)[base.len() + 1 + t] == dj[t]);
            }
            assert(di =~= dj);
            lemma_dec_digits_injective(i, j);
        }
    }
}

/// The set of the first `m` candidate output names for a base name.
spec fn names_set(base: Seq<char>, m: nat) -> Set<Seq<char>> {
    Set::new(|n: Seq<char>| exists|j: nat| j < m && n == spec_nth_name(base, j))
}

proof fn lemma_names_set_card(base: Seq<char>, m: nat)
    ensures
        names_set(base, m).finite(),
        names_set(base, m).len() == m,
    decreases m,
{
    broadcast use vstd::set::group_set_axioms;

    if m == 0 {
        assert(names_set(base, 0) =~= Set::<Seq<char>>::empty());
    } else {
        let prev = (m - 1) as nat;
        lemma_names_set_card(base, prev);
        assert(names_set(base, m) =~= names_set(base, prev).insert(spec_nth_name(base, prev)));
        if names_set(base, prev).contains(spec_nth_name(base, prev)) {
            let j = choose|j: nat| j < prev && spec_nth_name(base, prev) == spec_nth_name(base, j);
            lemma_nth_name_injective(base, prev, j);
            assert(false);
        }
    }
}

/// If the first `m` candidate names are all among `existing`, there are at
/// least `m` names in `existing`: the candidate names are pairwise distinct.
proof fn lemma_names_pigeonhole(base: Seq<char>, existing: Seq<String>, m: nat)
    requires
        forall|j: nat| j < m ==> name_taken(existing, spec_nth_name(base, j)),
    ensures
        m <= existing.len(),
{
    broadcast use vstd::set::group_set_axioms;
    broadcast use vstd::seq_lib::seq_to_set_is_finite;

    let views = existing.map_values(|s: String| s@);
    let e_set = views.to_set();
    lemma_names_set_card(base, m);
    views.lemma_cardinality_of_set();
    assert forall|n: Seq<char>| names_set(base, m).contains(n) implies e_set.contains(n) by {
        let j = choose|j: nat| j < m && n == spec_nth_name(base, j);
        assert(name_taken(existing, spec_nth_name(base, j)));
        let t = choose|t: int| 0 <= t < existing.len() && existing[t]@ == n;
        assert(views[t] == n);
        assert(views.contains(n));
    }
    vstd::set_lib::lemma_len_subset(names_set(base, m), e_set);
}

/// `name` is one of the names in `existing`.
pub open spec fn name_taken(existing: Seq<String>, name: Seq<char>) -> bool {
    exists|t: int| 0 <= t < existing.len() && existing[t]@ == name
}

fn name_taken_exec(existing: &Vec<String>, name: &String) -> (r: bool)
    ensures
        r == name_taken(existing@, name@),
{
    let mut t: usize = 0;
    while t < existing.len()
        invariant
            t <= existing@.len(),
            forall|u: int| 0 <= u < t ==> existing@[u]@ != name@,
        decreases existing@.len() - t,
    {
        if existing[t] == *name {
            assert(name_taken(existing@, name@));
            return true;
        }
        t += 1;
    }
    false
}

/// Name-collision resolution against a known set of existing names:
/// sequential first-fit probing of the candidate names. The chosen name is
/// never one of the existing names - a second run over the same target
/// leaves every earlier output in place - and every candidate name before
/// the chosen one was already taken.
pub fn first_free_name(base: &String, existing: &Vec<String>) -> (name: String)
    ensures
        !name_taken(existing@, name@),
        exists|k: nat|
            name@ == spec_nth_name(base@, k) && (forall|j: nat|
                j < k ==> name_taken(existing@, spec_nth_name(base@, j))),
{
    let bound = existing.len();
    let mut i: usize = 0;
    loop
        invariant
            i <= bound,
            bound == existing@.len(),
            forall|j: nat| j < i as nat ==> name_taken(existing@, spec_nth_name(base@, j)),
        decreases bound - i,
    {
        let name = nth_name(base, i);
        if !name_taken_exec(existing, &name) {
            return name;
        }
        proof {
            if i == bound {
                lemma_names_pigeonhole(base@, existing@, (bound + 1) as nat);
            }
        }
        i += 1;
    }
}

/// Writes a bounded-size PNG copy of the image at `path` into `thumbs_dir`
/// and returns the chosen output path: the source's base name with a fixed
/// `.png` extension, resolved by `first_free_name` against the directory's
/// listing at call time - sequential first-fit probing with `_1`, `_2`, ...
/// suffixes, so no name the listing held is reused and no earlier output is
/// overwritten. A source that does not decode gives `ThumbError::Decode`; a
/// copy that cannot be written gives `ThumbError::Encode`. Either failure
/// skips the item, nothing panics.
pub fn write_thumbnail(path: &String, thumbs_dir: &String, max_x: u32, max_y: u32) -> (r: Result<
    String,
    crate::ThumbError,
>)
    ensures
        r matches Ok(p) ==> exists|k: nat|
            p@ == spec_joined(thumbs_dir@, spec_nth_name(spec_file_name(path@), k)),
        r matches Err(e) ==> e == crate::ThumbError::Decode || e == crate::ThumbError::Encode,
{
    let thumb = match generate_thumbnail_from_image(path, max_x, max_y) {
        Ok(t) => t,
        Err(e) => {
            return Err(e);
        },
    };
    let base = file_name_of(path);
    let existing = list_dir_names(thumbs_dir);
    let name = first_free_name(&base, &existing);
    let full = dir_join(thumbs_dir, &name);
    match save_png(&thumb.image, &full) {
        Ok(_) => Ok(full),
        Err(_) => Err(crate::ThumbError::Encode),
    }
}

// ---------------------------------------------------------------------------
// Discovery stage
// ---------------------------------------------------------------------------
/// What a pipeline stage needs to know of one directory entry.
pub trait DirEntryData {
    /// Whether this entry stands for a regular file.
    spec fn spec_is_file(&self) -> bool;

    /// Whether this entry stands for a directory.
    spec fn spec_is_dir(&self) -> bool;

    fn is_file(&self) -> (r: bool)
        ensures
            r == self.spec_is_file(),
    ;

    fn is_dir(&self) -> (r: bool)
        ensures
            r == self.spec_is_dir(),
    ;
}

/// One directory entry as discovery sees it: its path and what the
/// directory listing said it is.
#[derive(Debug, Clone)]
pub struct FsEntry {
    pub path: String,
    pub file: bool,
    pub dir: bool,
}

impl DirEntryData for FsEntry {
    open spec fn spec_is_file(&self) -> bool {
        self.file
    }

    open spec fn spec_is_dir(&self) -> bool {
        self.dir
    }

    fn is_file(&self) -> (r: bool) {
        self.file
    }

    fn is_dir(&self) -> (r: bool) {
        self.dir
    }
}

/// The subdirectory paths among a run of entries, in listing order.
pub open spec fn dirs_of(s: Seq<FsEntry>) -> Seq<String>
    decreases s.len(),
{
    if s.len() == 0 {
        Seq::empty()
    } else {
        dirs_of(s.drop_last()) + if s.last().dir {
            seq![s.last().path]
        } else {
            Seq::empty()
        }
    }
}

/// The file paths among a run of entries, in listing order; an entry that
/// is neither a directory nor a file is skipped.
pub open spec fn files_of(s: Seq<FsEntry>) -> Seq<String>
    decreases s.len(),
{
    if s.len() == 0 {
        Seq::empty()
    } else {
        files_of(s.drop_last()) + if !s.last().dir && s.last().file {
            seq![s.last().path]
        } else {
            Seq::empty()
        }
    }
}

/// One directory's worth of the breadth-first walk: directory children go
/// back on the work queue, file children are emitted at once, in listing
/// order; anything else is skipped.
pub fn split_entries(entries: Vec<FsEntry>) -> (r: (Vec<String>, Vec<String>))
    ensures
        r.0@ == dirs_of(entries@),
        r.1@ == files_of(entries@),
{
    let mut dirs: Vec<String> = Vec::new();
    let mut files: Vec<String> = Vec::new();
    let mut i: usize = 0;
    while i < entries.len()
        invariant
            i <= entries@.len(),
            dirs@ == dirs_of(entries@.take(i as int)),
            files@ == files_of(entries@.take(i as int)),
        decreases entries@.len() - i,
    {
        proof {
            assert(entries@.take(i + 1).drop_last() =~= entries@.take(i as int));
            assert(entries@.take(i + 1).last() == entries@[i as int]);
        }
        let e = &entries[i];
        if e.dir {
            dirs.push(e.path.clone());
        } else if e.file {
            files.push(e.path.clone());
        }
        proof {
            assert(dirs@ =~= dirs_of(entries@.take(i + 1)));
            assert(files@ =~= files_of(entries@.take(i + 1)));
        }
        i += 1;
    }
    proof {
        assert(entries@.take(entries@.len() as int) =~= entries@);
    }
    (dirs, files)
}

/// One directory of a modeled tree: the files it holds and the positions
/// of its subdirectories in the same tree. A well-formed tree's
/// subdirectory positions point only forward, so it has no cycles.
#[derive(Debug, Clone)]
pub struct DirNode {
    pub files: Vec<String>,
    pub subdirs: Vec<usize>,
}

/// Every subdirectory position points forward and into the tree.
pub open spec fn wf_tree(tree: Seq<DirNode>) -> bool {
    forall|i: int, j: int|
        0 <= i < tree.len() && 0 <= j < tree[i].subdirs@.len() ==> i < #[trigger] tree[i].subdirs@[j]
            < tree.len()
}

/// All file paths in and below directory `i`, once per occurrence.
pub open spec fn spec_files_below(tree: Seq<DirNode>, i: int) -> Multiset<String>
    decreases tree.len() - i, tree[i].subdirs@.len() + 1,
        when 0 <= i < tree.len() && wf_tree(tree)
{
    tree[i].files@.to_multiset().add(spec_kids_files(tree, i, 0))
}

/// All file paths below directory `i`'s subdirectories from position `j` on.
pub open spec fn spec_kids_files(tree: Seq<DirNode>, i: int, j: int) -> Multiset<String>
    decreases tree.len() - i, tree[i].subdirs@.len() - j,
        when 0 <= i < tree.len() && 0 <= j && wf_tree(tree)
{
    if j >= tree[i].subdirs@.len() {
        Multiset::empty()
    } else {
        spec_files_below(tree, tree[i].subdirs@[j] as int).add(spec_kids_files(tree, i, j + 1))
    }
}

/// All file paths in and below a queue of directories.
pub open spec fn spec_queue_files(tree: Seq<DirNode>, q: Seq<usize>) -> Multiset<String>
    decreases tree.len() + 1, q.len(),
{
    if q.len() == 0 {
        Multiset::empty()
    } else {
        spec_files_below(tree, q[0] as int).add(spec_queue_files(tree, q.drop_first()))
    }
}

/// How many directories stand in and below directory `i`.
pub open spec fn spec_weight_below(tree: Seq<DirNode>, i: int) -> nat
    decreases tree.len() - i, tree[i].subdirs@.len() + 1,
        when 0 <= i < tree.len() && wf_tree(tree)
{
    1 + spec_kids_weight(tree, i, 0)
}

/// How many directories stand below directory `i`'s subdirectories from
/// position `j` on.
pub open spec fn spec_kids_weight(tree: Seq<DirNode>, i: int, j: int) -> nat
    decreases tree.len() - i, tree[i].subdirs@.len() - j,
        when 0 <= i < tree.len() && 0 <= j && wf_tree(tree)
{
    if j >= tree[i].subdirs@.len() {
        0
    } else {
        spec_weight_below(tree, tree[i].subdirs@[j] as int) + spec_kids_weight(tree, i, j + 1)
    }
}

/// How many directories stand in and below a queue of directories.
pub open spec fn spec_queue_weight(tree: Seq<DirNode>, q: Seq<usize>) -> nat
    decreases tree.len() + 1, q.len(),
{
    if q.len() == 0 {
        0
    } else {
        spec_weight_below(tree, q[0] as int) + spec_queue_weight(tree, q.drop_first())
    }
}

proof fn lemma_kids_as_queue(tree: Seq<DirNode>, i: int, j: int)
    requires
        wf_tree(tree),
        0 <= i < tree.len(),
        0 <= j <= tree[i].subdirs@.len(),
    ensures
        spec_kids_files(tree, i, j) == spec_queue_files(tree, tree[i].subdirs@.skip(j)),
        spec_kids_weight(tree, i, j) == spec_queue_weight(tree, tree[i].subdirs@.skip(j)),
    decreases tree[i].subdirs@.len() - j,
{
    let kids = tree[i].subdirs@;
    if j == kids.len() {
        assert(kids.skip(j) =~= Seq::<usize>::empty());
    } else {
        assert(kids.skip(j)[0] == kids[j]);
        assert(kids.skip(j).drop_first() =~= kids.skip(j + 1));
        lemma_kids_as_queue(tree, i, j + 1);
    }
}

proof fn lemma_queue_concat(tree: Seq<DirNode>, a: Seq<usize>, b: Seq<usize>)
    ensures
        spec_queue_files(tree, a + b) == spec_queue_files(tree, a).add(spec_queue_files(tree, b)),
        spec_queue_weight(tree, a + b) == spec_queue_weight(tree, a) + spec_queue_weight(tree, b),
    decreases a.len(),
{
    if a.len() == 0 {
        assert(a + b =~= b);
        assert(spec_queue_files(tree, a).add(spec_queue_files(tree, b)) =~= spec_queue_files(
            tree,
            b,
        ));
    } else {
        assert((a + b)[0] == a[0]);
        assert((a + b).drop_first() =~= a.drop_first() + b);
        lemma_queue_concat(tree, a.drop_first(), b);
        assert(spec_queue_files(tree, a + b) =~= spec_queue_files(tree, a).add(spec_queue_files(
            tree,
            b,
        )));
    }
}

/// The exact emission order of the walk from a queue of directories:
/// breadth-first, each popped directory's files in listing order, its
/// subdirectories appended to the back of the queue.
pub open spec fn spec_bfs_files(tree: Seq<DirNode>, q: Seq<usize>) -> Seq<String>
    decreases spec_queue_weight(tree, q),
        when wf_tree(tree) && (forall|t: int| 0 <= t < q.len() ==> q[t] < tree.len())
        via spec_bfs_files_decreases
{
    if q.len() == 0 {
        Seq::empty()
    } else {
        tree[q[0] as int].files@ + spec_bfs_files(
            tree,
            q.drop_first() + tree[q[0] as int].subdirs@,
        )
    }
}

#[via_fn]
proof fn spec_bfs_files_decreases(tree: Seq<DirNode>, q: Seq<usize>) {
    if q.len() > 0 {
        let i = q[0] as int;
        lemma_kids_as_queue(tree, i, 0);
        assert(tree[i].subdirs@.skip(0) =~= tree[i].subdirs@);
        lemma_queue_concat(tree, q.drop_first(), tree[i].subdirs@);
    }
}

proof fn lemma_bfs_files_mset(tree: Seq<DirNode>, q: Seq<usize>)
    requires
        wf_tree(tree),
        forall|t: int| 0 <= t < q.len() ==> q[t] < tree.len(),
    ensures
        spec_bfs_files(tree, q).to_multiset() == spec_queue_files(tree, q),
    decreases spec_queue_weight(tree, q),
{
    broadcast use group_to_multiset_ensures;

    if q.len() == 0 {
        assert forall|a: String| spec_bfs_files(tree, q).to_multiset().count(a) == 0 by {
            assert(!spec_bfs_files(tree, q).contains(a));
        }
    } else {
        let i = q[0] as int;
        let kids = tree[i].subdirs@;
        let rest2 = q.drop_first() + kids;
        assert(forall|t: int| 0 <= t < rest2.len() ==> rest2[t] < tree.len());
        lemma_kids_as_queue(tree, i, 0);
        assert(kids.skip(0) =~= kids);
        lemma_queue_concat(tree, q.drop_first(), kids);
        lemma_bfs_files_mset(tree, rest2);
        vstd::seq_lib::lemma_multiset_commutative(tree[i].files@, spec_bfs_files(tree, rest2));
        assert(spec_bfs_files(tree, q).to_multiset() =~= spec_queue_files(tree, q));
    }
}

/// The discovery walk, run over a modeled directory tree exactly as the
/// search stage runs it over the real filesystem: a breadth-first walk
/// with an explicit work queue, starting from the root, where each popped
/// directory's files are emitted in listing order and its subdirectories
/// queued. Every file of the tree is emitted exactly once, in
/// breadth-first order.
pub fn discover(tree: &Vec<DirNode>) -> (files: Vec<String>)
    requires
        wf_tree(tree@),
        tree@.len() >= 1,
    ensures
        files@ == spec_bfs_files(tree@, seq![0usize]),
        files@.to_multiset() == spec_files_below(tree@, 0),
{
    broadcast use group_to_multiset_ensures;

    let mut files: Vec<String> = Vec::new();
    let mut queue: Vec<usize> = Vec::new();
    queue.push(0);
    let mut head: usize = 0;
    proof {
        assert(queue@ =~= seq![0usize]);
        assert(queue@.skip(0) =~= queue@);
        assert(files@ + spec_bfs_files(tree@, queue@) =~= spec_bfs_files(tree@, seq![0usize]));
    }
    while head < queue.len()
        invariant
            wf_tree(tree@),
            tree@.len() >= 1,
            head <= queue@.len(),
            forall|t: int| head <= t < queue@.len() ==> queue@[t] < tree@.len(),
            files@ + spec_bfs_files(tree@, queue@.skip(head as int)) == spec_bfs_files(
                tree@,
                seq![0usize],
            ),
        decreases spec_queue_weight(tree@, queue@.skip(head as int)),
    {
        let ghost active0 = queue@.skip(head as int);
        let i = queue[head];
        head += 1;
        let ghost rest = queue@.skip(head as int);
        proof {
            assert(active0[0] == i);
            assert(active0.drop_first() =~= rest);
        }
        let ghost pre_files = files@;
        let file_count = tree[i].files.len();
        let mut f: usize = 0;
        while f < file_count
            invariant
                i < tree@.len(),
                file_count == tree@[i as int].files@.len(),
                f <= file_count,
                files@ == pre_files + tree@[i as int].files@.take(f as int),
            decreases file_count - f,
        {
            files.push(tree[i].files[f].clone());
            proof {
                assert(files@ =~= pre_files + tree@[i as int].files@.take(f + 1));
            }
            f += 1;
        }
        let ghost pre_q = queue@;
        let kid_count = tree[i].subdirs.len();
        let mut c: usize = 0;
        while c < kid_count
            invariant
                wf_tree(tree@),
                i < tree@.len(),
                kid_count == tree@[i as int].subdirs@.len(),
                c <= kid_count,
                queue@ == pre_q + tree@[i as int].subdirs@.take(c as int),
            decreases kid_count - c,
        {
            queue.push(tree[i].subdirs[c]);
            proof {
                assert(queue@ =~= pre_q + tree@[i as int].subdirs@.take(c + 1));
            }
            c += 1;
        }
        proof {
            let kids = tree@[i as int].subdirs@;
            assert(tree@[i as int].files@.take(file_count as int) =~= tree@[i as int].files@);
            assert(kids.take(kid_count as int) =~= kids);
            assert(queue@ =~= pre_q + kids);
            assert(queue@.skip(head as int) =~= rest + kids);
            assert(spec_bfs_files(tree@, active0) == tree@[i as int].files@ + spec_bfs_files(
                tree@,
                rest + kids,
            ));
            assert(files@ + spec_bfs_files(tree@, queue@.skip(head as int)) =~= pre_files
                + spec_bfs_files(tree@, active0));
            lemma_kids_as_queue(tree@, i as int, 0);
            assert(kids.skip(0) =~= kids);
            lemma_queue_concat(tree@, rest, kids);
            assert(spec_queue_weight(tree@, active0) == spec_weight_below(tree@, i as int)
                + spec_queue_weight(tree@, rest));
            assert(spec_queue_weight(tree@, queue@.skip(head as int)) < spec_queue_weight(
                tree@,
                active0,
            ));
        }
    }
    proof {
        assert(queue@.skip(head as int) =~= Seq::<usize>::empty());
        assert(files@ + spec_bfs_files(tree@, queue@.skip(head as int)) =~= files@);
        lemma_bfs_files_mset(tree@, seq![0usize]);
        let r = seq![0usize];
        assert(r.len() == 1 && r[0] == 0usize);
        assert(r.drop_first() =~= Seq::<usize>::empty());
        assert(spec_queue_files(tree@, r.drop_first()) =~= Multiset::<String>::empty());
        assert(spec_queue_files(tree@, r) =~= spec_files_below(tree@, 0).add(
            Multiset::<String>::empty(),
        ));
        assert(files@.to_multiset() =~= spec_files_below(tree@, 0));
    }
    files
}

// ---------------------------------------------------------------------------
// Extension matching
// ---------------------------------------------------------------------------
/// Whether a path carries one of a set of file extensions, compared
/// without regard to ASCII case. A placeholder hook: today's classifier
/// accepts every file, whatever its extension.
pub trait FileExtension {
    /// The character sequence whose extension is examined.
    spec fn ext_subject(&self) -> Seq<char>;

    fn has_extension(&self, extensions: &[&str]) -> (r: bool)
        ensures
            r == spec_has_extension(self.ext_subject(), extensions.deep_view()),
    ;
}

/// ASCII capital letters folded to lower case; everything else unchanged.
pub open spec fn lower_char(c: char) -> char {
    if 65 <= c as u32 <= 90 {
        (c as u32 + 32) as char
    } else {
        c
    }
}

/// Equality of two character sequences up to ASCII case.
pub open spec fn eq_ignore_ascii(a: Seq<char>, b: Seq<char>) -> bool {
    a.len() == b.len() && forall|i: int| 0 <= i < a.len() ==> lower_char(a[i]) == lower_char(b[i])
}

/// The extension of `path`: what follows the last dot of its last
/// component, provided that component names a file and something precedes
/// the dot within it.
pub open spec fn spec_extension(path: Seq<char>) -> Option<Seq<char>> {
    let name = spec_last_component(path);
    if !spec_dot_name(name) && (exists|d: int| 1 <= d < name.len() && name[d] == '.') {
        let d = choose|d: int|
            1 <= d < name.len() && name[d] == '.' && (forall|j: int|
                d < j < name.len() ==> name[j] != '.');
        Some(name.subrange(d + 1, name.len() as int))
    } else {
        None
    }
}

/// A path has one of the given extensions when its extension exists and
/// equals one of them up to ASCII case.
pub open spec fn spec_has_extension(path: Seq<char>, exts: Seq<Seq<char>>) -> bool {
    match spec_extension(path) {
        Some(e) => exists|i: int| 0 <= i < exts.len() && eq_ignore_ascii(exts[i], e),
        None => false,
    }
}

fn eq_ignore_ascii_exec(a: &str, b: &str) -> (r: bool)
    ensures
        r == eq_ignore_ascii(a@, b@),
{
    let n = a.unicode_len();
    if n != b.unicode_len() {
        return false;
    }
    let mut i: usize = 0;
    while i < n
        invariant
            i <= n,
            n == a@.len(),
            n == b@.len(),
            forall|j: int| 0 <= j < i ==> lower_char(a@[j]) == lower_char(b@[j]),
        decreases n - i,
    {
        let ca = a.get_char(i) as u32;
        let cb = b.get_char(i) as u32;
        let la = if 65 <= ca && ca <= 90 {
            ca + 32
        } else {
            ca
        };
        let lb = if 65 <= cb && cb <= 90 {
            cb + 32
        } else {
            cb
        };
        if la != lb {
            assert(lower_char(a@[i as int]) != lower_char(b@[i as int]));
            return false;
        }
        assert(lower_char(a@[i as int]) == lower_char(b@[i as int]));
        i += 1;
    }
    true
}

/// The extension of a path, as `Path::extension` sees it: the portion of
/// the file name after its last dot, unless nothing precedes that dot.
pub fn extension_of(path: &String) -> (r: Option<String>)
    ensures
        match r {
            Some(e) => spec_extension(path@) matches Some(x) && x == e@,
            None => spec_extension(path@) is None,
        },
{
    let (st, end) = component_bounds(path);
    let ghost name = spec_last_component(path@);
    if is_dot_name_range(path, st, end) {
        return None;
    }
    let mut d: usize = end;
    while d > st && path.as_str().get_char(d - 1) != '.'
        invariant
            st <= d <= end,
            end <= path@.len(),
            path@.len() <= usize::MAX,
            forall|j: int| d <= j < end ==> path@[j] != '.',
        decreases d,
    {
        d -= 1;
    }
    if d - st <= 1 {
        assert(spec_extension(path@) is None) by {
            if exists|dd: int| 1 <= dd < name.len() && name[dd] == '.' {
                let dd = choose|dd: int| 1 <= dd < name.len() && name[dd] == '.';
                assert(path@[st + dd] == '.');
            }
        }
        None
    } else {
        let ext = path.as_str().substring_char(d, end).to_owned();
        proof {
            let rel = d - 1 - st;
            assert(name[rel as int] == '.');
            assert(forall|j: int| rel < j < name.len() ==> name[j] != '.');
            let dd = choose|dd: int|
                1 <= dd < name.len() && name[dd] == '.' && (forall|j: int|
                    dd < j < name.len() ==> name[j] != '.');
            assert(dd == rel) by {
                if dd < rel {
                    assert(name[rel as int] == '.');
                } else if dd > rel {
                    assert(name[dd] == '.');
                }
            }
            assert(ext@ =~= name.subrange(dd + 1, name.len() as int));
        }
        Some(ext)
    }
}

/// Whether the path's extension equals one of the given ones, up to ASCII
/// case.
pub fn path_has_extension(path: &String, extensions: &[&str]) -> (r: bool)
    ensures
        r == spec_has_extension(path@, extensions.deep_view()),
{
    match extension_of(path) {
        None => false,
        Some(e) => {
            let mut i: usize = 0;
            while i < extensions.len()
                invariant
                    i <= extensions@.len(),
                    spec_extension(path@) matches Some(x) && x == e@,
                    forall|j: int|
                        0 <= j < i ==> !eq_ignore_ascii(#[trigger] extensions.deep_view()[j], e@),
                decreases extensions@.len() - i,
            {
                if eq_ignore_ascii_exec(extensions[i], e.as_str()) {
                    assert(eq_ignore_ascii(extensions.deep_view()[i as int], e@));
                    return true;
                }
                i += 1;
            }
            false
        },
    }
}

impl FileExtension for String {
    open spec fn ext_subject(&self) -> Seq<char> {
        self@
    }

    fn has_extension(&self, extensions: &[&str]) -> (r: bool) {
        path_has_extension(self, extensions)
    }
}

// ---------------------------------------------------------------------------
// Timing telemetry
// ---------------------------------------------------------------------------
/// One stage's telemetry, produced exactly once when the stage finishes:
/// either a single named duration, or a total with the portion of it that
/// was real work. Durations are in nanoseconds. Purely observational; no
/// pipeline decision reads these.
#[derive(Debug, Clone)]
pub enum TimingData {
    SingleTime { name: String, duration: u64 },
    TotalWithOfWhich {
        total_name: String,
        total_duration: u64,
        ofwhich_name: String,
        ofwhich_duration: u64,
    },
}

/// The share of `total` that `ofwhich` makes up, in whole percent,
/// rounded down; zero when `total` is zero.
pub open spec fn spec_pct(total: nat, ofwhich: nat) -> nat {
    if total == 0 {
        0
    } else {
        ofwhich * 100 / total
    }
}

/// The one-line rendering of a timing record. Durations render as the
/// standard library debug-prints them; the work share renders in whole
/// percent, rounded down.
pub open spec fn spec_render_timing(t: TimingData) -> Seq<char> {
    match t {
        TimingData::SingleTime { name, duration } => name@ + " took "@ + spec_duration_render(
            duration as nat,
        ),
        TimingData::TotalWithOfWhich { total_name, total_duration, ofwhich_name, ofwhich_duration } => (
        "\""@ + total_name@ + "\" took "@ + spec_duration_render(total_duration as nat) + " (\""@
            + ofwhich_name@ + "\" took "@ + spec_duration_render(ofwhich_duration as nat) + " ["@
            + dec_digits(spec_pct(total_duration as nat, ofwhich_duration as nat)) + "%])"@),
    }
}

impl TimingData {
    pub fn single_time_from(name: &str, duration: u64) -> (t: Self)
        ensures
            t matches TimingData::SingleTime { name: n, duration: d } && n@ == name@ && d
                == duration,
    {
        TimingData::SingleTime { name: name.to_owned(), duration }
    }

    pub fn total_of_which_from(
        total_name: &str,
        total_duration: u64,
        ofwhich_name: &str,
        ofwhich_duration: u64,
    ) -> (t: Self)
        ensures
            t matches TimingData::TotalWithOfWhich {
                total_name: tn,
                total_duration: td,
                ofwhich_name: on,
                ofwhich_duration: od,
            } && tn@ == total_name@ && td == total_duration && on@ == ofwhich_name@ && od
                == ofwhich_duration,
    {
        TimingData::TotalWithOfWhich {
            total_name: total_name.to_owned(),
            total_duration,
            ofwhich_name: ofwhich_name.to_owned(),
            ofwhich_duration,
        }
    }

    /// Renders the record for the log.
    pub fn to_string(&self) -> (s: String)
        ensures
            s@ == spec_render_timing(*self),
    {
        match self {
            TimingData::SingleTime { name, duration } => {
                let mut s = name.clone();
                s.append(" took ");
                s.append(duration_to_string(*duration).as_str());
                s
            },
            TimingData::TotalWithOfWhich {
                total_name,
                total_duration,
                ofwhich_name,
                ofwhich_duration,
            } => {
                let pct: u128 = if *total_duration == 0 {
                    0
                } else {
                    (*ofwhich_duration as u128) * 100 / (*total_duration as u128)
                };
                assert(pct == spec_pct(*total_duration as nat, *ofwhich_duration as nat));
                let mut s = "\"".to_owned();
                s.append(total_name.as_str());
                s.append("\" took ");
                s.append(duration_to_string(*total_duration).as_str());
                s.append(" (\"");
                s.append(ofwhich_name.as_str());
                s.append("\" took ");
                s.append(duration_to_string(*ofwhich_duration).as_str());
                s.append(" [");
                s.append(u128_to_string(pct).as_str());
                s.append("%])");
                s
            },
        }
    }
}

/// The name of the discovery stage's timing record.
pub open spec fn search_label() -> Seq<char> {
    "searching directories recursive"@
}

/// The name of the distribution stage's timing record.
pub open spec fn dist_label() -> Seq<char> {
    "receiving and distributing files"@
}

/// The name of the supervisor's final total-elapsed record.
pub open spec fn total_label() -> Seq<char> {
    "total time"@
}

/// Whether a record is the supervisor's total-elapsed record.
pub open spec fn is_total_record(t: TimingData) -> bool {
    t matches TimingData::SingleTime { name, .. } && name@ == total_label()
}

/// How many total-elapsed records a record sequence holds.
pub open spec fn count_total_records(s: Seq<TimingData>) -> nat
    decreases s.len(),
{
    if s.len() == 0 {
        0
    } else {
        count_total_records(s.drop_last()) + if is_total_record(s.last()) {
            1nat
        } else {
            0nat
        }
    }
}

/// The timing records one order emits, in the order the supervisor sends
/// them to its log: the search stage's record, one record per worker, the
/// distribution stage's record, and one final total-elapsed record.
pub open spec fn order_records(
    search: TimingData,
    workers: Seq<TimingData>,
    dist: TimingData,
    total: TimingData,
) -> Seq<TimingData> {
    seq![search] + workers + seq![dist] + seq![total]
}

proof fn lemma_count_total_records_add(a: Seq<TimingData>, b: Seq<TimingData>)
    ensures
        count_total_records(a + b) == count_total_records(a) + count_total_records(b),
    decreases b.len(),
{
    if b.len() == 0 {
        assert(a + b =~= a);
    } else {
        lemma_count_total_records_add(a, b.drop_last());
        assert((a + b).drop_last() =~= a + b.drop_last());
        assert((a + b).last() == b.last());
    }
}

proof fn lemma_count_total_records_none(s: Seq<TimingData>)
    requires
        forall|i: int| 0 <= i < s.len() ==> !is_total_record(#[trigger] s[i]),
    ensures
        count_total_records(s) == 0,
    decreases s.len(),
{
    if s.len() > 0 {
        lemma_count_total_records_none(s.drop_last());
    }
}

/// Exhaustion telemetry: after every stage of an order has finished, the
/// record sequence the supervisor has emitted holds the total-elapsed
/// record exactly once - the stage records carry other names or the paired
/// form, and the supervisor appends a single total record at the end.
pub proof fn lemma_total_timing_once(
    search: TimingData,
    workers: Seq<TimingData>,
    dist: TimingData,
    total: TimingData,
)
    requires
        search matches TimingData::SingleTime { name, .. } && name@ == search_label(),
        forall|i: int| 0 <= i < workers.len() ==> #[trigger] workers[i] is TotalWithOfWhich,
        dist matches TimingData::SingleTime { name, .. } && name@ == dist_label(),
        is_total_record(total),
    ensures
        count_total_records(order_records(search, workers, dist, total)) == 1,
{
    broadcast use vstd::string::group_string_axioms;

    reveal_strlit("searching directories recursive");
    reveal_strlit("receiving and distributing files");
    reveal_strlit("total time");
    assert(search_label().len() != total_label().len());
    assert(dist_label().len() != total_label().len());
    assert(!is_total_record(search));
    assert(!is_total_record(dist));
    lemma_count_total_records_none(seq![search]);
    lemma_count_total_records_none(workers);
    lemma_count_total_records_none(seq![dist]);
    let tseq = seq![total];
    assert(tseq.len() == 1);
    assert(tseq.last() == total);
    assert(tseq.drop_last() =~= Seq::<TimingData>::empty());
    assert(count_total_records(tseq.drop_last()) == 0);
    assert(count_total_records(tseq) == 1);
    lemma_count_total_records_add(seq![search], workers);
    lemma_count_total_records_add(seq![search] + workers, seq![dist]);
    lemma_count_total_records_add(seq![search] + workers + seq![dist], seq![total]);
}

} // verus!

