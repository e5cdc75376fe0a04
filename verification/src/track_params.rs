//! Keyframe track identifiers and how they are written into a track's alias text.
//!
//! A track that follows keyframes has an alias of the form
//! `…,keyframes.aux2,FLAGS|BANK,ID` followed by the end or by `|…`.
use vstd::prelude::*;
use crate::text::{
    all_ascii_digits, decimal_digits, digit_run_end, is_digit, lemma_decimal_digits,
    lemma_digit_run, lemma_digit_run_agree, lemma_digit_run_of_prefix, extend_chars, find_digit_run_end,
    is_ascii_digit, parse_usize, push_decimal, str_chars, string_of, usize_of_digits,
};

verus! {

/// Names one keyframe track: the bank it was created in and its number there.
#[derive(Debug, Clone, Copy, PartialEq, Eq, Hash, Structural)]
pub struct KeyframeTrackParams {
    pub bank_id: usize,
    pub keyframes_id: usize,
}

/// Why [`KeyframeTrackParams::set_params`] left a track unchanged.
#[derive(Debug, Clone, Copy, PartialEq, Eq, Structural)]
pub enum TrackAliasError {
    /// The track is neither a plain number nor of the form `EASING,FLAGS…`.
    NoKeyframePattern,
}

// ---------------------------------------------------------------------------
// Reading the identifiers out of an alias
// ---------------------------------------------------------------------------

/// `,keyframes.aux2,`
pub open spec fn alias_marker() -> Seq<char> {
    seq![',', 'k', 'e', 'y', 'f', 'r', 'a', 'm', 'e', 's', '.', 'a', 'u', 'x', '2', ',']
}

/// End of the `FLAGS` digits of a reference that starts at `p`.
pub open spec fn flags_end(s: Seq<char>, p: int) -> int {
    digit_run_end(s, p + 16)
}

/// End of the `BANK` digits of a reference that starts at `p`.
pub open spec fn bank_end(s: Seq<char>, p: int) -> int {
    digit_run_end(s, flags_end(s, p) + 1)
}

/// End of the `ID` digits of a reference that starts at `p`.
pub open spec fn id_end(s: Seq<char>, p: int) -> int {
    digit_run_end(s, bank_end(s, p) + 1)
}

/// `s[p..]` starts with `,keyframes.aux2,` `\d+` `|` `\d+` `,` `\d+`, followed by
/// the end or by `|`: the pattern that [`KeyframeTrackParams::parse`] searches for.
pub open spec fn reference_at(s: Seq<char>, p: int) -> bool {
    &&& 0 <= p
    &&& p + 16 <= s.len()
    &&& s.subrange(p, p + 16) == alias_marker()
    &&& flags_end(s, p) > p + 16
    &&& flags_end(s, p) < s.len()
    &&& s[flags_end(s, p)] == '|'
    &&& bank_end(s, p) > flags_end(s, p) + 1
    &&& bank_end(s, p) < s.len()
    &&& s[bank_end(s, p)] == ','
    &&& id_end(s, p) > bank_end(s, p) + 1
    &&& (id_end(s, p) == s.len() || s[id_end(s, p)] == '|')
}

/// The leftmost position at or after `p` where a reference starts.
pub open spec fn first_reference(s: Seq<char>, p: int) -> Option<int>
    decreases s.len() - p,
{
    if p < 0 || p >= s.len() {
        None
    } else if reference_at(s, p) {
        Some(p)
    } else {
        first_reference(s, p + 1)
    }
}

/// The identifiers named by an alias: those of its leftmost reference, when both
/// numbers are plain ASCII digits that fit in a `usize`.
pub open spec fn parse_alias(s: Seq<char>) -> Option<KeyframeTrackParams> {
    match first_reference(s, 0) {
        None => None,
        Some(p) => match (
            usize_of_digits(s.subrange(flags_end(s, p) + 1, bank_end(s, p))),
            usize_of_digits(s.subrange(bank_end(s, p) + 1, id_end(s, p))),
        ) {
            (Some(bank_id), Some(keyframes_id)) => Some(
                KeyframeTrackParams { bank_id, keyframes_id },
            ),
            _ => None,
        },
    }
}

// ---------------------------------------------------------------------------
// Writing the identifiers into an alias
// ---------------------------------------------------------------------------

/// The whole track is a plain number: non-empty, only ASCII digits and dots.
pub open spec fn is_static_value(s: Seq<char>) -> bool {
    &&& s.len() > 0
    &&& forall|j: int| 0 <= j < s.len() ==> is_ascii_digit(#[trigger] s[j]) || s[j] == '.'
}

/// Start of the comma-free stretch that ends just before `c`.
pub open spec fn segment_start(s: Seq<char>, c: int) -> int
    decreases c,
{
    if c <= 0 {
        0
    } else if s[c - 1] == ',' {
        c
    } else {
        segment_start(s, c - 1)
    }
}

/// End of the `FLAGS` digits after the comma at `c`.
pub open spec fn easing_flags_end(s: Seq<char>, c: int) -> int {
    digit_run_end(s, c + 1)
}

/// At the comma `c` the text reads `EASING,FLAGS` with a non-empty comma-free
/// `EASING`, digits `FLAGS`, then the end of the track or `|`.
pub open spec fn easing_at(s: Seq<char>, c: int) -> bool {
    &&& 0 <= c < s.len()
    &&& s[c] == ','
    &&& segment_start(s, c) < c
    &&& easing_flags_end(s, c) > c + 1
    &&& (easing_flags_end(s, c) == s.len() || s[easing_flags_end(s, c)] == '|')
}

/// The first comma at or after `c` where [`easing_at`] holds.
pub open spec fn first_easing(s: Seq<char>, c: int) -> Option<int>
    decreases s.len() - c,
{
    if c < 0 || c >= s.len() {
        None
    } else if easing_at(s, c) {
        Some(c)
    } else {
        first_easing(s, c + 1)
    }
}

/// `keyframes.aux2,`
pub open spec fn alias_name() -> Seq<char> {
    alias_marker().drop_first()
}

impl KeyframeTrackParams {
    /// What [`KeyframeTrackParams::set_params`] makes of the track `s`, or `None`
    /// when it refuses it.
    pub open spec fn rewritten(self, s: Seq<char>) -> Option<Seq<char>> {
        let bank = decimal_digits(self.bank_id as nat);
        let id = decimal_digits(self.keyframes_id as nat);
        if is_static_value(s) {
            Some(
                s + seq![','] + s + alias_marker() + seq!['0', '|'] + bank + seq![','] + id
                    + seq!['|'],
            )
        } else {
            match first_easing(s, 0) {
                None => None,
                Some(c) => {
                    let i = segment_start(s, c);
                    let e = easing_flags_end(s, c);
                    Some(
                        s.take(i) + alias_name() + s.subrange(c + 1, e) + seq!['|'] + bank + seq![
                            ',',
                        ] + id + s.skip(e),
                    )
                },
            }
        }
    }
}

/// The characters of `,keyframes.aux2,`.
fn marker_chars() -> (v: Vec<char>)
    ensures
        v@ == alias_marker(),
{
    let marker: [char; 16] = [
        ',', 'k', 'e', 'y', 'f', 'r', 'a', 'm', 'e', 's', '.', 'a', 'u', 'x', '2', ',',
    ];
    let mut v: Vec<char> = Vec::new();
    let mut j: usize = 0;
    while j < 16
        invariant
            j <= 16,
            v@ == marker@.take(j as int),
        decreases 16 - j,
    {
        v.push(marker[j]);
        j = j + 1;
        assert(v@ =~= marker@.take(j as int));
    }
    assert(marker@ =~= alias_marker());
    assert(marker@.take(16) =~= marker@);
    v
}

/// Executable form of [`reference_at`].
fn reference_at_exec(s: &Vec<char>, marker: &Vec<char>, p: usize) -> (r: bool)
    requires
        marker@ == alias_marker(),
    ensures
        r == reference_at(s@, p as int),
{
    if p > s.len() || s.len() - p < 16 {
        return false;
    }
    let mut j: usize = 0;
    while j < 16
        invariant
            j <= 16,
            p + 16 <= s.len(),
            marker@ == alias_marker(),
            s@.subrange(p as int, p + j) == alias_marker().take(j as int),
        decreases 16 - j,
    {
        if s[p + j] != marker[j] {
            assert(s@.subrange(p as int, p + 16)[j as int] != alias_marker()[j as int]);
            return false;
        }
        j = j + 1;
        assert(s@.subrange(p as int, p + j) =~= alias_marker().take(j as int));
    }
    assert(alias_marker().take(16) =~= alias_marker());
    let fe = find_digit_run_end(s, p + 16);
    if fe == p + 16 || fe >= s.len() || s[fe] != '|' {
        return false;
    }
    let be = find_digit_run_end(s, fe + 1);
    if be == fe + 1 || be >= s.len() || s[be] != ',' {
        return false;
    }
    let ie = find_digit_run_end(s, be + 1);
    ie > be + 1 && (ie == s.len() || s[ie] == '|')
}

/// Whether the whole track is a plain number ([`is_static_value`]).
fn is_static_value_exec(s: &Vec<char>) -> (r: bool)
    ensures
        r == is_static_value(s@),
{
    if s.len() == 0 {
        return false;
    }
    let mut j: usize = 0;
    while j < s.len()
        invariant
            j <= s.len(),
            forall|k: int| 0 <= k < j ==> is_ascii_digit(#[trigger] s@[k]) || s@[k] == '.',
        decreases s.len() - j,
    {
        if !(('0' <= s[j] && s[j] <= '9') || s[j] == '.') {
            return false;
        }
        j = j + 1;
    }
    true
}

impl KeyframeTrackParams {
    /// Reads the track identifiers out of an alias: the leftmost
    /// `,keyframes.aux2,FLAGS|BANK,ID` followed by the end or `|` (digits as in the
    /// regex class `\d`); `None` when there is none, or when `BANK` or `ID` is not
    /// a `usize` written in ASCII digits.
    pub fn parse(alias: &str) -> (r: Option<Self>)
        ensures
            r == parse_alias(alias@),
    {
        let s = str_chars(alias);
        let marker = marker_chars();
        let mut p: usize = 0;
        while p < s.len()
            invariant
                p <= s.len(),
                s@ == alias@,
                marker@ == alias_marker(),
                first_reference(s@, 0) == first_reference(s@, p as int),
            decreases s.len() - p,
        {
            if reference_at_exec(&s, &marker, p) {
                let fe = find_digit_run_end(&s, p + 16);
                let be = find_digit_run_end(&s, fe + 1);
                let ie = find_digit_run_end(&s, be + 1);
                let bank_id = parse_usize(&s, fe + 1, be);
                let keyframes_id = parse_usize(&s, be + 1, ie);
                return match (bank_id, keyframes_id) {
                    (Some(bank_id), Some(keyframes_id)) => Some(
                        KeyframeTrackParams { bank_id, keyframes_id },
                    ),
                    _ => None,
                };
            }
            p = p + 1;
        }
        None
    }

    /// Points the track `track` at these identifiers.
    ///
    /// A plain number `V` becomes `V,V,keyframes.aux2,0|BANK,ID|`. Otherwise the
    /// leftmost `EASING,FLAGS` (followed by the end or `|`) is replaced by
    /// `keyframes.aux2,FLAGS|BANK,ID`; without one the track is left as it is and
    /// the error says so.
    pub fn set_params(&self, track: &mut String) -> (r: Result<(), TrackAliasError>)
        ensures
            match self.rewritten(old(track)@) {
                Some(t) => r is Ok && final(track)@ == t,
                None => r == Err::<(), TrackAliasError>(TrackAliasError::NoKeyframePattern)
                    && final(track)@ == old(track)@,
            },
    {
        let s = str_chars(track.as_str());
        let marker = marker_chars();
        let ghost bank = decimal_digits(self.bank_id as nat);
        let ghost id = decimal_digits(self.keyframes_id as nat);
        if is_static_value_exec(&s) {
            let mut out: Vec<char> = Vec::new();
            extend_chars(&mut out, &s, 0, s.len());
            out.push(',');
            extend_chars(&mut out, &s, 0, s.len());
            extend_chars(&mut out, &marker, 0, 16);
            out.push('0');
            out.push('|');
            push_decimal(&mut out, self.bank_id);
            out.push(',');
            push_decimal(&mut out, self.keyframes_id);
            out.push('|');
            proof {
                assert(s@.subrange(0, s@.len() as int) =~= s@);
                assert(marker@.subrange(0, 16) =~= alias_marker());
                assert(out@ =~= s@ + seq![','] + s@ + alias_marker() + seq!['0', '|'] + bank
                    + seq![','] + id + seq!['|']);
            }
            *track = string_of(&out, 0, out.len());
            proof {
                assert(out@.subrange(0, out@.len() as int) =~= out@);
            }
            return Ok(());
        }
        let mut c: usize = 0;
        let mut start: usize = 0;
        while c < s.len()
            invariant
                c <= s.len(),
                s@ == old(track)@,
                track@ == old(track)@,
                marker@ == alias_marker(),
                start == segment_start(s@, c as int),
                start <= c,
                first_easing(s@, 0) == first_easing(s@, c as int),
                !is_static_value(s@),
            decreases s.len() - c,
        {
            if s[c] == ',' {
                if start < c {
                    let e = find_digit_run_end(&s, c + 1);
                    if e > c + 1 && (e == s.len() || s[e] == '|') {
                        let mut out: Vec<char> = Vec::new();
                        extend_chars(&mut out, &s, 0, start);
                        extend_chars(&mut out, &marker, 1, 16);
                        extend_chars(&mut out, &s, c + 1, e);
                        out.push('|');
                        push_decimal(&mut out, self.bank_id);
                        out.push(',');
                        push_decimal(&mut out, self.keyframes_id);
                        extend_chars(&mut out, &s, e, s.len());
                        proof {
                            assert(s@.subrange(0, start as int) =~= s@.take(start as int));
                            assert(marker@.subrange(1, 16) =~= alias_name());
                            assert(s@.subrange(e as int, s@.len() as int) =~= s@.skip(e as int));
                            assert(easing_at(s@, c as int));
                        }
                        *track = string_of(&out, 0, out.len());
                        proof {
                            assert(out@.subrange(0, out@.len() as int) =~= out@);
                        }
                        return Ok(());
                    }
                }
                start = c + 1;
            }
            c = c + 1;
        }
        assert(first_easing(s@, s@.len() as int) == None::<int>);
        Err(TrackAliasError::NoKeyframePattern)
    }
}

// ---------------------------------------------------------------------------
// Reading back what was written
// ---------------------------------------------------------------------------

/// The comma-free stretch before `c` starts after a comma (or at 0) and holds no comma.
proof fn lemma_segment_start(s: Seq<char>, c: int)
    requires
        0 <= c <= s.len(),
    ensures
        0 <= segment_start(s, c) <= c,
        segment_start(s, c) > 0 ==> s[segment_start(s, c) - 1] == ',',
        forall|j: int| segment_start(s, c) <= j < c ==> s[j] != ',',
    decreases c,
{
    if c > 0 && s[c - 1] != ',' {
        lemma_segment_start(s, c - 1);
    }
}

/// A stretch that follows a comma and holds no comma starts right after that comma.
proof fn lemma_segment_start_after(s: Seq<char>, m: int, c: int)
    requires
        0 < m <= c <= s.len(),
        s[m - 1] == ',',
        forall|j: int| m <= j < c ==> s[j] != ',',
    ensures
        segment_start(s, c) == m,
    decreases c - m,
{
    if c > m {
        lemma_segment_start_after(s, m, c - 1);
    }
}

/// The first easing found from `a` is one, and none comes before it.
proof fn lemma_first_easing(s: Seq<char>, a: int, x: int)
    requires
        0 <= a <= x,
        first_easing(s, a) is Some,
        easing_at(s, x),
    ensures
        easing_at(s, first_easing(s, a)->0),
        a <= first_easing(s, a)->0 <= x,
    decreases s.len() - a,
{
    if !easing_at(s, a) {
        lemma_first_easing(s, a + 1, x);
    }
}

/// What the first easing from `a` is, when there is one.
proof fn lemma_first_easing_found(s: Seq<char>, a: int)
    requires
        0 <= a,
        first_easing(s, a) is Some,
    ensures
        easing_at(s, first_easing(s, a)->0),
        a <= first_easing(s, a)->0,
    decreases s.len() - a,
{
    if !easing_at(s, a) {
        lemma_first_easing_found(s, a + 1);
    }
}

/// The leftmost reference from `p` is `q` when `q` is one and none lies in `p..q`.
proof fn lemma_first_reference_is(t: Seq<char>, p: int, q: int)
    requires
        0 <= p <= q,
        reference_at(t, q),
        forall|r: int| p <= r < q ==> !reference_at(t, r),
    ensures
        first_reference(t, p) == Some(q),
    decreases q - p,
{
    if p < q {
        lemma_first_reference_is(t, p + 1, q);
    }
}

/// The digit runs inside a reference, and where each ends.
proof fn lemma_reference_runs(t: Seq<char>, p: int)
    requires
        reference_at(t, p),
    ensures
        forall|j: int| p + 16 <= j < flags_end(t, p) ==> is_digit(#[trigger] t[j]),
        forall|j: int| flags_end(t, p) + 1 <= j < bank_end(t, p) ==> is_digit(#[trigger] t[j]),
        forall|j: int| bank_end(t, p) + 1 <= j < id_end(t, p) ==> is_digit(#[trigger] t[j]),
        id_end(t, p) <= t.len(),
{
    lemma_digit_run(t, p + 16);
    lemma_digit_run(t, flags_end(t, p) + 1);
    lemma_digit_run(t, bank_end(t, p) + 1);
}

/// Within a reference and the character that ends it, only the second character
/// is a `k`.
proof fn lemma_reference_only_k(t: Seq<char>, p: int, j: int)
    requires
        reference_at(t, p),
        p <= j <= id_end(t, p),
        j < t.len(),
        t[j] == 'k',
    ensures
        j == p + 1,
{
    lemma_reference_runs(t, p);
    assert(!is_digit('k'));
    if j < p + 16 {
        assert(t[j] == t.subrange(p, p + 16)[j - p]);
    }
}

/// A reference of `t` that, with the character ending it, lies where `s` and `t`
/// agree is a reference of `s` too.
proof fn lemma_reference_transfer(t: Seq<char>, s: Seq<char>, p: int)
    requires
        reference_at(t, p),
        id_end(t, p) < t.len(),
        id_end(t, p) < s.len(),
        forall|j: int| 0 <= j <= id_end(t, p) ==> s[j] == t[j],
    ensures
        reference_at(s, p),
{
    lemma_reference_runs(t, p);
    lemma_digit_run(t, p + 16);
    lemma_digit_run(t, flags_end(t, p) + 1);
    lemma_digit_run(t, bank_end(t, p) + 1);
    assert(s.subrange(p, p + 16) =~= t.subrange(p, p + 16));
    lemma_digit_run_agree(t, s, p + 16);
    lemma_digit_run_agree(t, s, flags_end(t, p) + 1);
    lemma_digit_run_agree(t, s, bank_end(t, p) + 1);
}

/// Every reference is also an `EASING,FLAGS` at the comma after `keyframes.aux2`.
proof fn lemma_reference_is_easing(s: Seq<char>, p: int)
    requires
        reference_at(s, p),
    ensures
        easing_at(s, p + 15),
        segment_start(s, p + 15) == p + 1,
{
    assert forall|j: int| p + 1 <= j < p + 15 implies s[j] != ',' by {
        assert(s[j] == s.subrange(p, p + 16)[j - p]);
    }
    assert(s[p] == s.subrange(p, p + 16)[0]);
    assert(s[p + 15] == s.subrange(p, p + 16)[15]);
    lemma_segment_start_after(s, p + 1, p + 15);
}

/// The digits of a rewritten reference, read where they were written.
proof fn lemma_written_runs(
    t: Seq<char>,
    q: int,
    f: Seq<char>,
    bank: Seq<char>,
    id: Seq<char>,
    tail: Seq<char>,
)
    requires
        0 <= q,
        t.len() >= q,
        t == t.take(q) + alias_marker() + f + seq!['|'] + bank + seq![','] + id + tail,
        f.len() > 0,
        forall|j: int| 0 <= j < f.len() ==> is_digit(#[trigger] f[j]),
        bank.len() > 0,
        all_ascii_digits(bank),
        id.len() > 0,
        all_ascii_digits(id),
        tail.len() == 0 || tail[0] == '|',
    ensures
        reference_at(t, q),
        flags_end(t, q) == q + 16 + f.len(),
        bank_end(t, q) == q + 17 + f.len() + bank.len(),
        id_end(t, q) == q + 18 + f.len() + bank.len() + id.len(),
        t.subrange(flags_end(t, q) + 1, bank_end(t, q)) == bank,
        t.subrange(bank_end(t, q) + 1, id_end(t, q)) == id,
{
    let a = q + 16;
    let b = a + f.len() + 1;
    let k = b + bank.len() + 1;
    let z = k + id.len();
    assert(t.subrange(q, a) =~= alias_marker());
    assert forall|j: int| a <= j < a + f.len() implies is_digit(#[trigger] t[j]) by {
        assert(t[j] == f[j - a]);
    }
    assert(t[a + f.len()] == '|');
    lemma_digit_run_of_prefix(t, a, f.len() as int);
    assert forall|j: int| b <= j < b + bank.len() implies is_digit(#[trigger] t[j]) by {
        assert(t[j] == bank[j - b]);
    }
    assert(t[b + bank.len()] == ',');
    lemma_digit_run_of_prefix(t, b, bank.len() as int);
    assert forall|j: int| k <= j < z implies is_digit(#[trigger] t[j]) by {
        assert(t[j] == id[j - k]);
    }
    if tail.len() > 0 {
        assert(t[z] == tail[0]);
    }
    assert(z == t.len() || t[z] == '|');
    lemma_digit_run_of_prefix(t, k, id.len() as int);
    assert(t.subrange(b, b + bank.len()) =~= bank);
    assert(t.subrange(k, z) =~= id);
}

/// A track whose leftmost reference sits at `q` and carries the displays of the
/// identifiers reads back as those identifiers.
proof fn lemma_parse_written(t: Seq<char>, q: int, params: KeyframeTrackParams)
    requires
        first_reference(t, 0) == Some(q),
        t.subrange(flags_end(t, q) + 1, bank_end(t, q)) == decimal_digits(params.bank_id as nat),
        t.subrange(bank_end(t, q) + 1, id_end(t, q)) == decimal_digits(
            params.keyframes_id as nat,
        ),
    ensures
        parse_alias(t) == Some(params),
{
    lemma_decimal_digits(params.bank_id as nat);
    lemma_decimal_digits(params.keyframes_id as nat);
}

/// No character of a plain number, nor a comma, is a `k`.
proof fn lemma_static_prefix_no_k(s: Seq<char>, pre: Seq<char>)
    requires
        is_static_value(s),
        pre == s + seq![','] + s,
    ensures
        forall|j: int| 0 <= j < pre.len() ==> pre[j] != 'k',
{
    let n = s.len() as int;
    assert forall|j: int| 0 <= j < pre.len() implies pre[j] != 'k' by {
        if j < n {
            assert(pre[j] == s[j]);
        } else if j > n {
            assert(pre[j] == s[j - n - 1]);
        }
    }
}

/// The shape of a rewritten plain-number track.
proof fn lemma_static_shape(params: KeyframeTrackParams, s: Seq<char>)
    requires
        is_static_value(s),
    ensures
        params.rewritten(s) == Some(
            (s + seq![','] + s) + alias_marker() + seq!['0'] + seq!['|'] + decimal_digits(
                params.bank_id as nat,
            ) + seq![','] + decimal_digits(params.keyframes_id as nat) + seq!['|'],
        ),
{
    let bank = decimal_digits(params.bank_id as nat);
    let id = decimal_digits(params.keyframes_id as nat);
    assert(s + seq![','] + s + alias_marker() + seq!['0', '|'] + bank + seq![','] + id + seq!['|']
        =~= (s + seq![','] + s) + alias_marker() + seq!['0'] + seq!['|'] + bank + seq![','] + id
        + seq!['|']);
}

/// A rewritten plain-number track reads back as the identifiers written.
#[verifier::rlimit(40)]
proof fn lemma_static_read(t: Seq<char>, s: Seq<char>, params: KeyframeTrackParams)
    requires
        is_static_value(s),
        t == (s + seq![','] + s) + alias_marker() + seq!['0'] + seq!['|'] + decimal_digits(
            params.bank_id as nat,
        ) + seq![','] + decimal_digits(params.keyframes_id as nat) + seq!['|'],
    ensures
        parse_alias(t) == Some(params),
{
    let bank = decimal_digits(params.bank_id as nat);
    let id = decimal_digits(params.keyframes_id as nat);
    lemma_decimal_digits(params.bank_id as nat);
    lemma_decimal_digits(params.keyframes_id as nat);
    let pre = s + seq![','] + s;
    let q = pre.len() as int;
    let f = seq!['0'];
    let tail = seq!['|'];
    assert(t.take(q) =~= pre);
    assert(is_digit(f[0]));
    lemma_written_runs(t, q, f, bank, id, tail);
    lemma_static_prefix_no_k(s, pre);
    assert(t[q] == alias_marker()[0]);
    assert forall|j: int| 0 <= j <= q implies t[j] != 'k' by {
        if j < q {
            assert(t[j] == t.take(q)[j]);
        }
    }
    lemma_no_k_no_reference(t, q);
    lemma_first_reference_is(t, 0, q);
    lemma_parse_written(t, q, params);
}

/// Where no `k` occurs up to `q`, no reference starts before `q`.
proof fn lemma_no_k_no_reference(t: Seq<char>, q: int)
    requires
        0 <= q < t.len(),
        forall|j: int| 0 <= j <= q ==> t[j] != 'k',
    ensures
        forall|r: int| 0 <= r < q ==> !reference_at(t, r),
{
    assert forall|r: int| 0 <= r < q implies !reference_at(t, r) by {
        if reference_at(t, r) {
            assert(t[r + 1] == t.subrange(r, r + 16)[1]);
        }
    }
}

/// In a rewritten track no reference starts before the comma that precedes the
/// written `keyframes.aux2`.
proof fn lemma_no_earlier_reference(s: Seq<char>, t: Seq<char>, c: int, r: int)
    requires
        first_easing(s, 0) == Some(c),
        easing_at(s, c),
        0 < segment_start(s, c) <= c,
        s[segment_start(s, c) - 1] == ',',
        segment_start(s, c) < t.len(),
        t[segment_start(s, c)] == 'k',
        forall|j: int| 0 <= j < segment_start(s, c) ==> s[j] == t[j],
        0 <= r < segment_start(s, c) - 1,
    ensures
        !reference_at(t, r),
{
    let i = segment_start(s, c);
    if reference_at(t, r) {
        lemma_reference_runs(t, r);
        let z = id_end(t, r);
        if z >= i {
            lemma_reference_only_k(t, r, i);
        } else {
            lemma_reference_transfer(t, s, r);
            lemma_reference_is_easing(s, r);
            lemma_first_easing(s, 0, r + 15);
            assert(s[i - 1] == s.subrange(r, r + 16)[i - 1 - r]);
        }
    }
}

/// The shape of a track rewritten at an `EASING,FLAGS` that follows a comma.
proof fn lemma_easing_shape(params: KeyframeTrackParams, s: Seq<char>, c: int)
    requires
        !is_static_value(s),
        first_easing(s, 0) == Some(c),
        segment_start(s, c) > 0,
        s[segment_start(s, c) - 1] == ',',
        segment_start(s, c) <= c < s.len(),
        c + 1 <= easing_flags_end(s, c) <= s.len(),
    ensures
        params.rewritten(s) == Some(
            s.take(segment_start(s, c) - 1) + alias_marker() + s.subrange(c + 1, easing_flags_end(s, c))
                + seq!['|'] + decimal_digits(params.bank_id as nat) + seq![','] + decimal_digits(
                params.keyframes_id as nat,
            ) + s.skip(easing_flags_end(s, c)),
        ),
{
    let i = segment_start(s, c);
    assert(s.take(i) + alias_name() =~= s.take(i - 1) + alias_marker());
}

/// A track rewritten at an `EASING,FLAGS` that follows a comma reads back as the
/// identifiers written.
#[verifier::rlimit(40)]
proof fn lemma_easing_read(t: Seq<char>, s: Seq<char>, c: int, params: KeyframeTrackParams)
    requires
        first_easing(s, 0) == Some(c),
        easing_at(s, c),
        segment_start(s, c) > 0,
        s[segment_start(s, c) - 1] == ',',
        segment_start(s, c) <= c,
        forall|j: int| segment_start(s, c) <= j < c ==> s[j] != ',',
        c + 1 < easing_flags_end(s, c) <= s.len(),
        forall|j: int| c + 1 <= j < easing_flags_end(s, c) ==> is_digit(#[trigger] s[j]),
        t == s.take(segment_start(s, c) - 1) + alias_marker() + s.subrange(
            c + 1,
            easing_flags_end(s, c),
        ) + seq!['|'] + decimal_digits(params.bank_id as nat) + seq![','] + decimal_digits(
            params.keyframes_id as nat,
        ) + s.skip(easing_flags_end(s, c)),
    ensures
        parse_alias(t) == Some(params),
{
    let bank = decimal_digits(params.bank_id as nat);
    let id = decimal_digits(params.keyframes_id as nat);
    lemma_decimal_digits(params.bank_id as nat);
    lemma_decimal_digits(params.keyframes_id as nat);
    let i = segment_start(s, c);
    let e = easing_flags_end(s, c);
    let q = i - 1;
    let f = s.subrange(c + 1, e);
    let tail = s.skip(e);
    assert(t.take(q) =~= s.take(q));
    assert forall|j: int| 0 <= j < f.len() implies is_digit(#[trigger] f[j]) by {
        assert(f[j] == s[c + 1 + j]);
    }
    if tail.len() > 0 {
        assert(tail[0] == s[e]);
    }
    lemma_written_runs(t, q, f, bank, id, tail);
    assert(t[i] == alias_marker()[1]);
    assert forall|j: int| 0 <= j < i implies s[j] == t[j] by {
        if j < q {
            assert(t[j] == s.take(q)[j]);
        } else {
            assert(t[j] == alias_marker()[0]);
        }
    }
    assert forall|r: int| 0 <= r < q implies !reference_at(t, r) by {
        lemma_no_earlier_reference(s, t, c, r);
    }
    lemma_first_reference_is(t, 0, q);
    lemma_parse_written(t, q, params);
}

/// Reading back a track that [`KeyframeTrackParams::set_params`] wrote gives the
/// identifiers it wrote, unless the rewritten `EASING,FLAGS` stood at the very
/// start of the track (no comma then precedes `keyframes.aux2`).
pub proof fn lemma_parse_after_set_params(params: KeyframeTrackParams, s: Seq<char>)
    requires
        params.rewritten(s) is Some,
        is_static_value(s) || segment_start(s, first_easing(s, 0)->0) > 0,
    ensures
        parse_alias(params.rewritten(s)->0) == Some(params),
{
    if is_static_value(s) {
        lemma_static_shape(params, s);
        lemma_static_read(params.rewritten(s)->0, s, params);
    } else {
        let c = first_easing(s, 0)->0;
        lemma_first_easing_found(s, 0);
        lemma_segment_start(s, c);
        lemma_digit_run(s, c + 1);
        lemma_easing_shape(params, s, c);
        lemma_easing_read(params.rewritten(s)->0, s, c, params);
    }
}

// ---------------------------------------------------------------------------
// Drawing new identifiers
// ---------------------------------------------------------------------------

/// Where new track identifiers come from: the bank of the current scene (banks
/// start at 1; 0 marks a track that has none yet) and the next number.
#[derive(Debug, Clone, Copy, PartialEq, Eq, Structural)]
pub struct TrackIdCounter {
    pub current_bank: usize,
    pub next_keyframes_id: usize,
}

impl TrackIdCounter {
    /// The counter at start-up: bank 1, number 0.
    pub fn new() -> (r: Self)
        ensures
            r == (TrackIdCounter { current_bank: 1, next_keyframes_id: 0 }),
    {
        TrackIdCounter { current_bank: 1, next_keyframes_id: 0 }
    }

    /// On loading a project whose last bank was `last_bank_id`: identifiers are
    /// drawn from the bank after it.
    pub fn load_project(&mut self, last_bank_id: usize)
        requires
            last_bank_id < usize::MAX,
        ensures
            *final(self) == (TrackIdCounter { current_bank: (last_bank_id + 1) as usize, ..*old(self) }),
    {
        self.current_bank = last_bank_id + 1;
    }

    /// On changing scene: identifiers are drawn from a new bank.
    pub fn change_scene(&mut self)
        requires
            old(self).current_bank < usize::MAX,
        ensures
            *final(self) == (TrackIdCounter { current_bank: (old(self).current_bank + 1) as usize, ..*old(self) }),
    {
        self.current_bank = self.current_bank + 1;
    }
}

/// The identifiers the counter `c` hands out next, and the counter after that.
pub open spec fn draw(c: TrackIdCounter) -> (KeyframeTrackParams, TrackIdCounter) {
    (
        KeyframeTrackParams { bank_id: c.current_bank, keyframes_id: c.next_keyframes_id },
        TrackIdCounter { next_keyframes_id: (c.next_keyframes_id + 1) as usize, ..c },
    )
}

impl KeyframeTrackParams {
    /// New identifiers: the current bank and the next number, which is then used up.
    pub fn new(counter: &mut TrackIdCounter) -> (r: Self)
        requires
            old(counter).next_keyframes_id < usize::MAX,
        ensures
            (r, *final(counter)) == draw(*old(counter)),
    {
        let params = KeyframeTrackParams {
            bank_id: counter.current_bank,
            keyframes_id: counter.next_keyframes_id,
        };
        counter.next_keyframes_id = counter.next_keyframes_id + 1;
        params
    }
}

/// The identifiers handed out by `n` draws in a row from `c`, in order.
pub open spec fn draws(c: TrackIdCounter, n: nat) -> Seq<KeyframeTrackParams>
    decreases n,
{
    if n == 0 {
        Seq::empty()
    } else {
        seq![draw(c).0] + draws(draw(c).1, (n - 1) as nat)
    }
}

/// Draws in a row never hand out the same identifiers twice: the `i`-th carries the
/// number the counter held plus `i`.
pub proof fn lemma_draws_distinct(c: TrackIdCounter, n: nat)
    requires
        c.next_keyframes_id + n <= usize::MAX,
    ensures
        draws(c, n).len() == n,
        forall|i: int|
            0 <= i < n ==> (#[trigger] draws(c, n)[i]).keyframes_id == c.next_keyframes_id + i
                && draws(c, n)[i].bank_id == c.current_bank,
        forall|i: int, j: int| 0 <= i < j < n ==> draws(c, n)[i] != draws(c, n)[j],
    decreases n,
{
    if n > 0 {
        let next = draw(c).1;
        lemma_draws_distinct(next, (n - 1) as nat);
        let d = draws(c, n);
        assert forall|i: int| 0 <= i < n implies (#[trigger] d[i]).keyframes_id == c.next_keyframes_id + i
            && d[i].bank_id == c.current_bank by {
            if i > 0 {
                assert(d[i] == draws(next, (n - 1) as nat)[i - 1]);
            }
        }
        assert forall|i: int, j: int| 0 <= i < j < n implies d[i] != d[j] by {
            assert(d[i].keyframes_id != d[j].keyframes_id);
        }
    }
}

} // verus!
