//! Easing scripts: the directives an easing script declares in its comment lines,
//! and the splitting of a multi-script file into its scripts.
use vstd::prelude::*;
use indexmap::IndexMap;
use std::path::PathBuf;
use vstd::string::StringSliceAdditionalSpecFns;
use crate::text::{
    digit_class, digit_run_end, find_char, find_digit_run_end, first_line, is_digit, lines,
    next_line, occurs_at, occurs_at_exec, push_char, str_chars, string_of, trim, trimmed, vec_of,
};

verus! {

// ---------------------------------------------------------------------------
// Outside types
// ---------------------------------------------------------------------------

/// `indexmap::IndexMap`, an insertion-ordered hash map.
#[verifier::external_type_specification]
#[verifier::external_body]
#[verifier::reject_recursive_types(K)]
#[verifier::reject_recursive_types(V)]
#[verifier::reject_recursive_types(S)]
pub struct ExIndexMap<K, V, S>(IndexMap<K, V, S>);

/// `std::path::PathBuf`, carried through unread.
#[verifier::external_type_specification]
#[verifier::external_body]
pub struct ExPathBuf(PathBuf);

/// The entries of a parameter map, in its order, as (name, value) pairs.
pub uninterp spec fn param_entries(m: IndexMap<String, String>) -> Seq<(Seq<char>, Seq<char>)>;

/// The position of the entry named `key`, if any.
pub open spec fn entry_position(entries: Seq<(Seq<char>, Seq<char>)>, key: Seq<char>) -> Option<int>
    decreases entries.len(),
{
    if entries.len() == 0 {
        None
    } else if entries.last().0 == key {
        Some(entries.len() - 1)
    } else {
        entry_position(entries.drop_last(), key)
    }
}

/// `IndexMap::insert`: an entry with an equal key keeps its place and takes the
/// new value; otherwise the pair is added last.
pub open spec fn insert_entry(
    entries: Seq<(Seq<char>, Seq<char>)>,
    key: Seq<char>,
    value: Seq<char>,
) -> Seq<(Seq<char>, Seq<char>)> {
    match entry_position(entries, key) {
        Some(i) => entries.update(i, (entries[i].0, value)),
        None => entries.push((key, value)),
    }
}

/// `IndexMap::new`: an empty map.
#[verifier::external_body]
fn new_param_map() -> (m: IndexMap<String, String>)
    ensures
        param_entries(m) == Seq::<(Seq<char>, Seq<char>)>::empty(),
{
    IndexMap::new()
}

/// `IndexMap::insert` with `String` keys, which are equal when their characters are:
/// an existing entry with the same key keeps its position and gets the new value,
/// otherwise the pair is appended. The value it hands back is dropped here.
#[verifier::external_body]
fn insert_param(m: &mut IndexMap<String, String>, key: String, value: String)
    ensures
        param_entries(*final(m)) == insert_entry(param_entries(*old(m)), key@, value@),
{
    m.insert(key, value);
}

/// `Option<PathBuf>::clone`.
#[verifier::external_body]
fn clone_path(path: &Option<PathBuf>) -> (r: Option<PathBuf>)
    ensures
        r == *path,
{
    path.clone()
}

// ---------------------------------------------------------------------------
// Directives of a script
// ---------------------------------------------------------------------------

/// `--speed:`
pub open spec fn speed_tag() -> Seq<char> {
    seq!['-', '-', 's', 'p', 'e', 'e', 'd', ':']
}

/// `--timecontrol`
pub open spec fn timecontrol_tag() -> Seq<char> {
    seq!['-', '-', 't', 'i', 'm', 'e', 'c', 'o', 'n', 't', 'r', 'o', 'l']
}

/// `--param:`
pub open spec fn param_tag() -> Seq<char> {
    seq!['-', '-', 'p', 'a', 'r', 'a', 'm', ':']
}

/// `--twopoint`
pub open spec fn twopoint_tag() -> Seq<char> {
    seq!['-', '-', 't', 'w', 'o', 'p', 'o', 'i', 'n', 't']
}

/// `--label:`
pub open spec fn label_tag() -> Seq<char> {
    seq!['-', '-', 'l', 'a', 'b', 'e', 'l', ':']
}

/// The name given to the parameter of `--param:VALUE` ("setting value").
pub open spec fn unnamed_param() -> Seq<char> {
    seq!['設', '定', '値']
}

/// `0` or `1`.
pub open spec fn is_bit_char(c: char) -> bool {
    c == '0' || c == '1'
}

/// `--speed:A,D` with `A` and `D` each `0` or `1` starts at `i`.
pub open spec fn speed_at(t: Seq<char>, i: int) -> bool {
    &&& occurs_at(t, i, speed_tag())
    &&& i + 11 <= t.len()
    &&& is_bit_char(t[i + 8])
    &&& t[i + 9] == ','
    &&& is_bit_char(t[i + 10])
}

/// The leftmost `--speed:A,D` at or after `i`.
pub open spec fn first_speed(t: Seq<char>, i: int) -> Option<int>
    decreases t.len() - i,
{
    if i < 0 || i >= t.len() {
        None
    } else if speed_at(t, i) {
        Some(i)
    } else {
        first_speed(t, i + 1)
    }
}

/// Where the number `\d*\.?\d+` that starts at `p` ends (as a regex takes it:
/// digits, then a dot with digits when there are some after it), if there is one.
pub open spec fn number_end(t: Seq<char>, p: int) -> Option<int> {
    let d = digit_run_end(t, p);
    if d < t.len() && t[d] == '.' && d + 1 < t.len() && is_digit(t[d + 1]) {
        Some(digit_run_end(t, d + 1))
    } else if d > p {
        Some(d)
    } else {
        None
    }
}

/// `t[p..e]` reads as `\d*\.?\d+`: digits with at most one dot, ending in a digit.
pub open spec fn is_number_text(t: Seq<char>, p: int, e: int) -> bool {
    &&& 0 <= p < e <= t.len()
    &&& is_digit(t[e - 1])
    &&& forall|j: int| p <= j < e ==> is_digit(#[trigger] t[j]) || t[j] == '.'
    &&& forall|j: int, k: int| p <= j < k < e && #[trigger] t[j] == '.' ==> #[trigger] t[k] != '.'
}

/// The number at `p` is the longest text there that reads as `\d*\.?\d+`: every
/// digit after the dot belongs to it. There is none exactly when no such text
/// starts at `p`.
pub proof fn lemma_number_end_longest(t: Seq<char>, p: int)
    requires
        0 <= p <= t.len(),
    ensures
        number_end(t, p) matches Some(e) ==> is_number_text(t, p, e) && forall|e2: int|
            e < e2 <= t.len() ==> !is_number_text(t, p, e2),
        number_end(t, p) is None ==> forall|e2: int| p < e2 <= t.len() ==> !is_number_text(t, p, e2),
{
    let d = digit_run_end(t, p);
    crate::text::lemma_digit_run(t, p);
    if d < t.len() && t[d] == '.' && d + 1 < t.len() && is_digit(t[d + 1]) {
        let e = digit_run_end(t, d + 1);
        crate::text::lemma_digit_run(t, d + 1);
        assert(is_digit(t[e - 1])) by {
            assert(d + 1 <= e - 1);
        }
        assert forall|j: int| p <= j < e implies is_digit(#[trigger] t[j]) || t[j] == '.' by {
            if j < d {
            } else if j > d {
            }
        }
        assert forall|j: int, k: int| p <= j < k < e && #[trigger] t[j] == '.' implies #[trigger] t[k] != '.' by {
            if j != d {
                assert(!is_digit(t[j]));
                assert(false);
            }
            assert(is_digit(t[k]));
        }
        assert forall|e2: int| e < e2 <= t.len() implies !is_number_text(t, p, e2) by {
            if is_number_text(t, p, e2) {
                assert(!is_digit(t[e]));
                assert(is_digit(t[e]) || t[e] == '.');
                assert(t[d] == '.' && d < e);
            }
        }
    } else if d > p {
        assert(is_digit(t[d - 1]));
        assert forall|j: int, k: int| p <= j < k < d && #[trigger] t[j] == '.' implies #[trigger] t[k] != '.' by {
            assert(is_digit(t[j]));
        }
        assert forall|e2: int| d < e2 <= t.len() implies !is_number_text(t, p, e2) by {
            if is_number_text(t, p, e2) {
                assert(is_digit(t[d]) || t[d] == '.');
                if e2 == d + 1 {
                    assert(is_digit(t[e2 - 1]));
                } else {
                    assert(is_digit(t[d + 1]) || t[d + 1] == '.');
                }
            }
        }
    } else {
        assert forall|e2: int| p < e2 <= t.len() implies !is_number_text(t, p, e2) by {
            if is_number_text(t, p, e2) {
                assert(is_digit(t[p]) || t[p] == '.');
                if e2 == p + 1 {
                    assert(is_digit(t[e2 - 1]));
                } else {
                    assert(is_digit(t[p + 1]) || t[p + 1] == '.');
                }
            }
        }
    }
}

/// `--param:NAME,NUMBER` starts at `i`: a non-empty comma-free `NAME`, then a
/// number.
pub open spec fn named_param_at(t: Seq<char>, i: int) -> bool {
    let c = find_char(t, i + 8, ',');
    &&& occurs_at(t, i, param_tag())
    &&& c > i + 8
    &&& c < t.len()
    &&& number_end(t, c + 1) is Some
}

/// The leftmost `--param:NAME,NUMBER` at or after `i`.
pub open spec fn first_named_param(t: Seq<char>, i: int) -> Option<int>
    decreases t.len() - i,
{
    if i < 0 || i >= t.len() {
        None
    } else if named_param_at(t, i) {
        Some(i)
    } else {
        first_named_param(t, i + 1)
    }
}

/// `--param:NUMBER` starts at `i`.
pub open spec fn plain_param_at(t: Seq<char>, i: int) -> bool {
    occurs_at(t, i, param_tag()) && number_end(t, i + 8) is Some
}

/// The leftmost `--param:NUMBER` at or after `i`.
pub open spec fn first_plain_param(t: Seq<char>, i: int) -> Option<int>
    decreases t.len() - i,
{
    if i < 0 || i >= t.len() {
        None
    } else if plain_param_at(t, i) {
        Some(i)
    } else {
        first_plain_param(t, i + 1)
    }
}

/// What a script declares about itself.
pub struct ScriptInfo {
    pub has_speed: bool,
    pub default_acceleration: bool,
    pub default_deceleration: bool,
    pub has_timecontrol: bool,
    pub ignore_midpoints: bool,
    pub label: Option<Seq<char>>,
    pub params: Seq<(Seq<char>, Seq<char>)>,
}

/// A script that declares nothing.
pub open spec fn no_directives() -> ScriptInfo {
    ScriptInfo {
        has_speed: false,
        default_acceleration: false,
        default_deceleration: false,
        has_timecontrol: false,
        ignore_midpoints: false,
        label: None,
        params: Seq::empty(),
    }
}

/// `--speed:A,D` (leftmost on the trimmed line) turns the speed options on, with
/// acceleration and deceleration on by default where the digit is `1`.
pub open spec fn step_speed(info: ScriptInfo, t: Seq<char>) -> ScriptInfo {
    match first_speed(t, 0) {
        Some(i) => ScriptInfo {
            has_speed: true,
            default_acceleration: t[i + 8] == '1',
            default_deceleration: t[i + 10] == '1',
            ..info
        },
        None => info,
    }
}

/// A trimmed line that is exactly `--timecontrol` turns time control on.
pub open spec fn step_timecontrol(info: ScriptInfo, t: Seq<char>) -> ScriptInfo {
    if t == timecontrol_tag() {
        ScriptInfo { has_timecontrol: true, ..info }
    } else {
        info
    }
}

/// `--param:NAME,NUMBER` (leftmost on the trimmed line) sets parameter `NAME`.
pub open spec fn step_named_param(info: ScriptInfo, t: Seq<char>) -> ScriptInfo {
    match first_named_param(t, 0) {
        Some(i) => {
            let c = find_char(t, i + 8, ',');
            ScriptInfo {
                params: insert_entry(
                    info.params,
                    t.subrange(i + 8, c),
                    t.subrange(c + 1, number_end(t, c + 1)->0),
                ),
                ..info
            }
        },
        None => info,
    }
}

/// `--param:NUMBER` (leftmost on the trimmed line) sets the unnamed parameter.
pub open spec fn step_plain_param(info: ScriptInfo, t: Seq<char>) -> ScriptInfo {
    match first_plain_param(t, 0) {
        Some(i) => ScriptInfo {
            params: insert_entry(
                info.params,
                unnamed_param(),
                t.subrange(i + 8, number_end(t, i + 8)->0),
            ),
            ..info
        },
        None => info,
    }
}

/// A trimmed line that is exactly `--twopoint` makes the easing ignore midpoints.
pub open spec fn step_twopoint(info: ScriptInfo, t: Seq<char>) -> ScriptInfo {
    if t == twopoint_tag() {
        ScriptInfo { ignore_midpoints: true, ..info }
    } else {
        info
    }
}

/// A line (untrimmed) that starts with `--label:` sets the label to the rest of it,
/// trimmed.
pub open spec fn step_label(info: ScriptInfo, line: Seq<char>) -> ScriptInfo {
    if occurs_at(line, 0, label_tag()) {
        ScriptInfo { label: Some(trim(line.skip(8))), ..info }
    } else {
        info
    }
}

/// What one line of a script adds, the directives taken in this order.
pub open spec fn apply_line(info: ScriptInfo, line: Seq<char>) -> ScriptInfo {
    let t = trim(line);
    step_label(
        step_twopoint(
            step_plain_param(step_named_param(step_timecontrol(step_speed(info, t), t), t), t),
            t,
        ),
        line,
    )
}

/// What the lines `ls` add to `info`, first to last.
pub open spec fn scan_lines(info: ScriptInfo, ls: Seq<Seq<char>>) -> ScriptInfo
    decreases ls.len(),
{
    if ls.len() == 0 {
        info
    } else {
        scan_lines(apply_line(info, ls[0]), ls.drop_first())
    }
}

/// What a script declares, line by line.
pub open spec fn script_info(script: Seq<char>) -> ScriptInfo {
    scan_lines(no_directives(), lines(script))
}

/// An easing: a named script and what it declares about itself.
#[derive(Debug)]
pub struct Easing {
    pub name: String,
    pub script: String,
    pub script_bytes: Vec<u8>,
    pub label: Option<String>,
    pub path: Option<PathBuf>,
    pub has_speed: bool,
    pub default_acceleration: bool,
    pub default_deceleration: bool,
    pub has_timecontrol: bool,
    pub ignore_midpoints: bool,
    /// Parameter names with their default values, written as in the script.
    pub params: IndexMap<String, String>,
}

impl Easing {
    /// What this easing records of its script's directives.
    pub open spec fn info(self) -> ScriptInfo {
        ScriptInfo {
            has_speed: self.has_speed,
            default_acceleration: self.default_acceleration,
            default_deceleration: self.default_deceleration,
            has_timecontrol: self.has_timecontrol,
            ignore_midpoints: self.ignore_midpoints,
            label: match self.label {
                Some(l) => Some(l@),
                None => None,
            },
            params: param_entries(self.params),
        }
    }
}

// ---------------------------------------------------------------------------
// Reading the directives
// ---------------------------------------------------------------------------

/// The directive keywords, as characters.
struct Tags {
    speed: Vec<char>,
    timecontrol: Vec<char>,
    param: Vec<char>,
    twopoint: Vec<char>,
    label: Vec<char>,
}

impl Tags {
    spec fn wf(&self) -> bool {
        &&& self.speed@ == speed_tag()
        &&& self.timecontrol@ == timecontrol_tag()
        &&& self.param@ == param_tag()
        &&& self.twopoint@ == twopoint_tag()
        &&& self.label@ == label_tag()
    }

    fn new() -> (r: Tags)
        ensures
            r.wf(),
    {
        let speed = vec_of(&['-', '-', 's', 'p', 'e', 'e', 'd', ':']);
        let timecontrol = vec_of(
            &['-', '-', 't', 'i', 'm', 'e', 'c', 'o', 'n', 't', 'r', 'o', 'l'],
        );
        let param = vec_of(&['-', '-', 'p', 'a', 'r', 'a', 'm', ':']);
        let twopoint = vec_of(&['-', '-', 't', 'w', 'o', 'p', 'o', 'i', 'n', 't']);
        let label = vec_of(&['-', '-', 'l', 'a', 'b', 'e', 'l', ':']);
        assert(speed@ =~= speed_tag());
        assert(timecontrol@ =~= timecontrol_tag());
        assert(param@ =~= param_tag());
        assert(twopoint@ =~= twopoint_tag());
        assert(label@ =~= label_tag());
        Tags { speed, timecontrol, param, twopoint, label }
    }
}

/// Two character sequences are equal.
fn same_chars(a: &Vec<char>, b: &Vec<char>) -> (r: bool)
    ensures
        r == (a@ == b@),
{
    if a.len() != b.len() {
        return false;
    }
    let r = occurs_at_exec(a, 0, b);
    assert(r ==> a@ =~= b@);
    assert(a@ == b@ ==> a@.subrange(0, b@.len() as int) =~= b@);
    r
}

/// The leftmost `--speed:A,D` of `t`.
fn find_speed(t: &Vec<char>, tags: &Tags) -> (r: Option<usize>)
    requires
        tags.wf(),
    ensures
        r is Some == first_speed(t@, 0) is Some,
        r matches Some(i) ==> first_speed(t@, 0) == Some(i as int),
{
    let mut i: usize = 0;
    while i < t.len()
        invariant
            i <= t.len(),
            tags.wf(),
            first_speed(t@, 0) == first_speed(t@, i as int),
        decreases t.len() - i,
    {
        if occurs_at_exec(t, i, &tags.speed) && t.len() - i >= 11 {
            if (t[i + 8] == '0' || t[i + 8] == '1') && t[i + 9] == ',' && (t[i + 10] == '0' || t[i
                + 10] == '1') {
                return Some(i);
            }
        }
        i = i + 1;
    }
    None
}

/// Executable form of [`number_end`].
fn find_number_end(t: &Vec<char>, p: usize) -> (r: Option<usize>)
    requires
        p <= t.len(),
    ensures
        r is Some == number_end(t@, p as int) is Some,
        r matches Some(e) ==> number_end(t@, p as int) == Some(e as int),
        r matches Some(e) ==> p < e <= t.len(),
{
    proof { crate::text::lemma_digit_run(t@, p as int); }
    let d = find_digit_run_end(t, p);
    if d < t.len() && t[d] == '.' && d + 1 < t.len() && digit_class(t[d + 1]) {
        proof { crate::text::lemma_digit_run(t@, d + 1); }
        Some(find_digit_run_end(t, d + 1))
    } else if d > p {
        Some(d)
    } else {
        None
    }
}

/// The leftmost `--param:NAME,NUMBER` of `t`.
fn find_named_param(t: &Vec<char>, tags: &Tags) -> (r: Option<usize>)
    requires
        tags.wf(),
    ensures
        r is Some == first_named_param(t@, 0) is Some,
        r matches Some(i) ==> first_named_param(t@, 0) == Some(i as int),
{
    let mut i: usize = 0;
    while i < t.len()
        invariant
            i <= t.len(),
            tags.wf(),
            first_named_param(t@, 0) == first_named_param(t@, i as int),
        decreases t.len() - i,
    {
        if occurs_at_exec(t, i, &tags.param) {
            let c = crate::text::find_char_exec(t, i + 8, ',');
            proof { crate::text::lemma_find_char(t@, i + 8, ','); }
            if c > i + 8 && c < t.len() {
                if let Some(_) = find_number_end(t, c + 1) {
                    return Some(i);
                }
            }
        }
        i = i + 1;
    }
    None
}

/// The leftmost `--param:NUMBER` of `t`.
fn find_plain_param(t: &Vec<char>, tags: &Tags) -> (r: Option<usize>)
    requires
        tags.wf(),
    ensures
        r is Some == first_plain_param(t@, 0) is Some,
        r matches Some(i) ==> first_plain_param(t@, 0) == Some(i as int),
{
    let mut i: usize = 0;
    while i < t.len()
        invariant
            i <= t.len(),
            tags.wf(),
            first_plain_param(t@, 0) == first_plain_param(t@, i as int),
        decreases t.len() - i,
    {
        if occurs_at_exec(t, i, &tags.param) {
            if let Some(_) = find_number_end(t, i + 8) {
                return Some(i);
            }
        }
        i = i + 1;
    }
    None
}

impl Easing {
    /// The parts an easing keeps apart from what its script declares.
    spec fn same_source(self, other: Easing) -> bool {
        &&& self.name == other.name
        &&& self.script == other.script
        &&& self.script_bytes == other.script_bytes
        &&& self.path == other.path
    }

    fn read_speed(&mut self, t: &Vec<char>, tags: &Tags)
        requires
            tags.wf(),
        ensures
            final(self).info() == step_speed(old(self).info(), t@),
            final(self).same_source(*old(self)),
    {
        if let Some(i) = find_speed(t, tags) {
            proof { lemma_first_speed_found(t@, 0); }
            assert(speed_at(t@, i as int));
            assert(i + 11 <= t@.len());
            assert(i + 11 <= t.len());
            self.has_speed = true;
            self.default_acceleration = t[i + 8] == '1';
            self.default_deceleration = t[i + 10] == '1';
        }
    }

    fn read_flags(&mut self, t: &Vec<char>, tags: &Tags)
        requires
            tags.wf(),
        ensures
            final(self).info() == step_timecontrol(old(self).info(), t@),
            final(self).same_source(*old(self)),
    {
        if same_chars(t, &tags.timecontrol) {
            self.has_timecontrol = true;
        }
    }

    fn read_twopoint(&mut self, t: &Vec<char>, tags: &Tags)
        requires
            tags.wf(),
        ensures
            final(self).info() == step_twopoint(old(self).info(), t@),
            final(self).same_source(*old(self)),
    {
        if same_chars(t, &tags.twopoint) {
            self.ignore_midpoints = true;
        }
    }

    fn read_named_param(&mut self, t: &Vec<char>, tags: &Tags)
        requires
            tags.wf(),
        ensures
            final(self).info() == step_named_param(old(self).info(), t@),
            final(self).same_source(*old(self)),
    {
        if let Some(i) = find_named_param(t, tags) {
            proof { lemma_first_named_param_found(t@, 0); }
            assert(named_param_at(t@, i as int));
            assert(param_tag().len() == 8);
            assert(i + 8 <= t.len());
            let c = crate::text::find_char_exec(t, i + 8, ',');
            proof { crate::text::lemma_find_char(t@, i + 8, ','); }
            if let Some(e) = find_number_end(t, c + 1) {
                let name = string_of(t, i + 8, c);
                let value = string_of(t, c + 1, e);
                insert_param(&mut self.params, name, value);
            }
        }
    }

    fn read_plain_param(&mut self, t: &Vec<char>, tags: &Tags)
        requires
            tags.wf(),
        ensures
            final(self).info() == step_plain_param(old(self).info(), t@),
            final(self).same_source(*old(self)),
    {
        if let Some(i) = find_plain_param(t, tags) {
            proof { lemma_first_plain_param_found(t@, 0); }
            assert(plain_param_at(t@, i as int));
            assert(param_tag().len() == 8);
            assert(i + 8 <= t.len());
            if let Some(e) = find_number_end(t, i + 8) {
                let mut name = String::new();
                push_char(&mut name, '設');
                push_char(&mut name, '定');
                push_char(&mut name, '値');
                assert(name@ =~= unnamed_param());
                let value = string_of(t, i + 8, e);
                insert_param(&mut self.params, name, value);
            }
        }
    }

    fn read_label(&mut self, line: &Vec<char>, tags: &Tags)
        requires
            tags.wf(),
        ensures
            final(self).info() == step_label(old(self).info(), line@),
            final(self).same_source(*old(self)),
    {
        if occurs_at_exec(line, 0, &tags.label) {
            let mut rest: Vec<char> = Vec::new();
            crate::text::extend_chars(&mut rest, line, 8, line.len());
            assert(rest@ =~= line@.skip(8));
            let label = trimmed(&rest);
            self.label = Some(string_of(&label, 0, label.len()));
            assert(label@.subrange(0, label@.len() as int) =~= label@);
        }
    }

    /// Records what one line of the script declares.
    fn apply_line(&mut self, line: &Vec<char>, tags: &Tags)
        requires
            tags.wf(),
        ensures
            final(self).info() == apply_line(old(self).info(), line@),
            final(self).same_source(*old(self)),
    {
        let t = trimmed(line);
        self.read_speed(&t, tags);
        self.read_flags(&t, tags);
        self.read_named_param(&t, tags);
        self.read_plain_param(&t, tags);
        self.read_twopoint(&t, tags);
        self.read_label(line, tags);
    }
}

proof fn lemma_first_speed_found(t: Seq<char>, i: int)
    requires
        0 <= i,
        first_speed(t, i) is Some,
    ensures
        speed_at(t, first_speed(t, i)->0),
        i <= first_speed(t, i)->0,
    decreases t.len() - i,
{
    if !speed_at(t, i) {
        lemma_first_speed_found(t, i + 1);
    }
}

proof fn lemma_first_named_param_found(t: Seq<char>, i: int)
    requires
        0 <= i,
        first_named_param(t, i) is Some,
    ensures
        named_param_at(t, first_named_param(t, i)->0),
        i <= first_named_param(t, i)->0,
    decreases t.len() - i,
{
    if !named_param_at(t, i) {
        lemma_first_named_param_found(t, i + 1);
    }
}

proof fn lemma_first_plain_param_found(t: Seq<char>, i: int)
    requires
        0 <= i,
        first_plain_param(t, i) is Some,
    ensures
        plain_param_at(t, first_plain_param(t, i)->0),
        i <= first_plain_param(t, i)->0,
    decreases t.len() - i,
{
    if !plain_param_at(t, i) {
        lemma_first_plain_param_found(t, i + 1);
    }
}

impl Easing {
    /// The easing named `name` whose script is `script` (as text) and
    /// `script_bytes` (as stored): its directives are read from the text, line by
    /// line.
    pub fn from_script_with_bytes(
        path: Option<PathBuf>,
        name: &str,
        script: &str,
        script_bytes: &[u8],
    ) -> (r: Easing)
        ensures
            r.name@ == name@,
            r.script@ == script@,
            r.script_bytes@ == script_bytes@,
            r.path == path,
            r.info() == script_info(script@),
    {
        let tags = Tags::new();
        let mut easing = Easing {
            name: name.to_owned(),
            script: script.to_owned(),
            script_bytes: vstd::slice::slice_to_vec(script_bytes),
            label: None,
            path,
            has_speed: false,
            default_acceleration: false,
            default_deceleration: false,
            has_timecontrol: false,
            ignore_midpoints: false,
            params: new_param_map(),
        };
        let chars = str_chars(script);
        assert(easing.info() == no_directives());
        assert(chars@.skip(0) =~= script@);
        let mut pos: usize = 0;
        while pos < chars.len()
            invariant
                pos <= chars.len(),
                tags.wf(),
                chars@ == script@,
                easing.name@ == name@,
                easing.script@ == script@,
                easing.script_bytes@ == script_bytes@,
                easing.path == path,
                scan_lines(easing.info(), lines(chars@.skip(pos as int))) == script_info(script@),
            decreases chars.len() - pos,
        {
            let ghost rest = chars@.skip(pos as int);
            let ghost before = easing.info();
            let (line, nl) = next_line(&chars, pos);
            easing.apply_line(&line, &tags);
            proof {
                crate::text::lemma_find_char(rest, 0, '\n');
            }
            if nl >= chars.len() {
                proof {
                    assert(lines(rest) == seq![rest]);
                    assert(first_line(rest) == rest);
                    assert(chars@.skip(chars@.len() as int) =~= Seq::<char>::empty());
                    assert(seq![rest].drop_first() =~= Seq::<Seq<char>>::empty());
                }
                pos = chars.len();
            } else {
                proof {
                    let tail = rest.skip(find_char(rest, 0, '\n') + 1);
                    assert(lines(rest) == seq![first_line(rest)] + lines(tail));
                    assert((seq![first_line(rest)] + lines(tail)).drop_first() =~= lines(tail));
                }
                pos = nl + 1;
            }
        }
        assert(chars@.skip(pos as int) =~= Seq::<char>::empty());
        easing
    }

    /// The easing named `name` whose script is `script`, stored as its UTF-8 bytes.
    pub fn from_script(path: Option<PathBuf>, name: &str, script: &str) -> (r: Easing)
        ensures
            r.name@ == name@,
            r.script@ == script@,
            r.script_bytes@ == script.spec_bytes(),
            r.path == path,
            r.info() == script_info(script@),
    {
        Self::from_script_with_bytes(path, name, script, script.as_bytes())
    }
}

// ---------------------------------------------------------------------------
// Multi-script files
// ---------------------------------------------------------------------------

/// First position at or after `i` holding the byte `c`, or the length.
pub open spec fn find_byte(b: Seq<u8>, i: int, c: u8) -> int
    decreases b.len() - i,
{
    if i < 0 || i >= b.len() {
        b.len() as int
    } else if b[i] == c {
        i
    } else {
        find_byte(b, i + 1, c)
    }
}

/// A byte line without one trailing carriage return.
pub open spec fn strip_cr(b: Seq<u8>) -> Seq<u8> {
    if b.len() > 0 && b.last() == 13u8 {
        b.drop_last()
    } else {
        b
    }
}

/// The bytes split at each `\n` (so there is always at least one piece, and an
/// empty one after a final `\n`), each piece without one trailing `\r`.
pub open spec fn byte_lines(b: Seq<u8>) -> Seq<Seq<u8>>
    decreases b.len(),
{
    let nl = find_byte(b, 0, 10u8);
    if nl >= b.len() {
        seq![strip_cr(b)]
    } else {
        proof { lemma_find_byte(b, 0, 10u8); }
        seq![strip_cr(b.take(nl))] + byte_lines(b.skip(nl + 1))
    }
}

/// Facts about [`find_byte`].
pub proof fn lemma_find_byte(b: Seq<u8>, i: int, c: u8)
    requires
        0 <= i <= b.len(),
    ensures
        i <= find_byte(b, i, c) <= b.len(),
        find_byte(b, i, c) < b.len() ==> b[find_byte(b, i, c)] == c,
    decreases b.len() - i,
{
    if i < b.len() && b[i] != c {
        lemma_find_byte(b, i + 1, c);
    }
}

/// Lines paired with byte lines, as far as both go.
pub open spec fn zip_lines(a: Seq<Seq<char>>, b: Seq<Seq<u8>>) -> Seq<(Seq<char>, Seq<u8>)> {
    let n = if a.len() <= b.len() { a.len() } else { b.len() };
    Seq::new(n, |i: int| (a[i], b[i]))
}

/// A script of a multi-script file: its name, its text and its bytes.
pub type ScriptBlock = (Seq<char>, Seq<char>, Seq<u8>);

/// Progress through a multi-script file: the scripts already closed and the one
/// being read, if any.
pub struct SplitState {
    pub done: Seq<ScriptBlock>,
    pub current: Option<ScriptBlock>,
}

/// What one line (with its bytes) does: `@NAME` closes the current script and
/// opens one named `NAME` trimmed (none when that is empty); any other line is
/// added, with a line break, to the open script, if there is one.
pub open spec fn split_step(st: SplitState, line: Seq<char>, line_bytes: Seq<u8>) -> SplitState {
    if line.len() > 0 && line[0] == '@' {
        let done = match st.current {
            Some(block) => st.done.push(block),
            None => st.done,
        };
        let name = trim(line.skip(1));
        SplitState {
            done,
            current: if name.len() > 0 {
                Some((name, Seq::empty(), Seq::empty()))
            } else {
                None
            },
        }
    } else {
        match st.current {
            Some(block) => SplitState {
                done: st.done,
                current: Some(
                    (block.0, block.1 + line + seq!['\n'], block.2 + line_bytes + seq![10u8]),
                ),
            },
            None => st,
        }
    }
}

/// Runs [`split_step`] over the pairs, first to last.
pub open spec fn split_from(st: SplitState, pairs: Seq<(Seq<char>, Seq<u8>)>) -> SplitState
    decreases pairs.len(),
{
    if pairs.len() == 0 {
        st
    } else {
        split_from(split_step(st, pairs[0].0, pairs[0].1), pairs.drop_first())
    }
}

/// The scripts once every line is read: the closed ones, then the open one.
pub open spec fn finish_split(st: SplitState) -> Seq<ScriptBlock> {
    match st.current {
        Some(block) => st.done.push(block),
        None => st.done,
    }
}

/// The scripts of a multi-script file, given as text and as bytes.
pub open spec fn script_blocks(text: Seq<char>, bytes: Seq<u8>) -> Seq<ScriptBlock> {
    finish_split(
        split_from(
            SplitState { done: Seq::empty(), current: None },
            zip_lines(lines(text), byte_lines(bytes)),
        ),
    )
}

/// `e` is the easing made from `block`, with the file path `path`.
pub open spec fn easing_of_block(e: Easing, block: ScriptBlock, path: Option<PathBuf>) -> bool {
    &&& e.name@ == block.0
    &&& e.script@ == block.1
    &&& e.script_bytes@ == block.2
    &&& e.path == path
    &&& e.info() == script_info(block.1)
}

/// The next byte line of `b[from..]` (as [`byte_lines`] gives it) and the position
/// of the `\n` that ends it (the length when none does).
fn next_byte_line(b: &[u8], from: usize) -> (r: (Vec<u8>, usize))
    requires
        from <= b.len(),
    ensures
        r.1 == from + find_byte(b@.skip(from as int), 0, 10u8),
        from <= r.1 <= b.len(),
        r.1 >= b.len() ==> byte_lines(b@.skip(from as int)) == seq![r.0@],
        r.1 < b.len() ==> byte_lines(b@.skip(from as int)) == seq![r.0@] + byte_lines(
            b@.skip(r.1 + 1),
        ),
{
    let ghost rest = b@.skip(from as int);
    let mut nl = from;
    while nl < b.len() && b[nl] != 10u8
        invariant
            from <= nl <= b.len(),
            rest == b@.skip(from as int),
            find_byte(rest, nl - from, 10u8) == find_byte(rest, 0, 10u8),
        decreases b.len() - nl,
    {
        nl = nl + 1;
    }
    proof { lemma_find_byte(rest, 0, 10u8); }
    let end = if nl > from && b[nl - 1] == 13u8 {
        nl - 1
    } else {
        nl
    };
    let mut line: Vec<u8> = Vec::new();
    let mut i = from;
    while i < end
        invariant
            from <= i <= end <= nl <= b.len(),
            line@ == b@.subrange(from as int, i as int),
        decreases end - i,
    {
        line.push(b[i]);
        i = i + 1;
        assert(line@ =~= b@.subrange(from as int, i as int));
    }
    proof {
        if nl >= b.len() {
            assert(rest.take(nl - from) =~= rest);
            assert(line@ =~= strip_cr(rest));
        } else {
            assert(rest.take(nl - from) =~= b@.subrange(from as int, nl as int));
            assert(line@ =~= strip_cr(rest.take(nl - from)));
            assert(rest.skip(nl - from + 1) =~= b@.skip(nl + 1));
        }
    }
    (line, nl)
}

/// Appends the characters of `v` to `s`.
fn push_chars(s: &mut String, v: &Vec<char>)
    ensures
        final(s)@ == old(s)@ + v@,
{
    let mut i: usize = 0;
    while i < v.len()
        invariant
            i <= v.len(),
            s@ == old(s)@ + v@.take(i as int),
        decreases v.len() - i,
    {
        push_char(s, v[i]);
        i = i + 1;
        assert(s@ =~= old(s)@ + v@.take(i as int));
    }
    assert(v@.take(v@.len() as int) =~= v@);
}

/// Pairing the first lines with the first byte lines, then the rest.
proof fn lemma_zip_lines_first(a: Seq<Seq<char>>, b: Seq<Seq<u8>>)
    requires
        a.len() > 0,
        b.len() > 0,
    ensures
        zip_lines(a, b).len() > 0,
        zip_lines(a, b)[0] == (a[0], b[0]),
        zip_lines(a, b).drop_first() == zip_lines(a.drop_first(), b.drop_first()),
{
    assert(zip_lines(a, b).drop_first() =~= zip_lines(a.drop_first(), b.drop_first()));
}

/// The open script and its bytes, as the state of the split describes them.
spec fn current_matches(
    current: Option<(String, String)>,
    current_bytes: Seq<u8>,
    block: Option<ScriptBlock>,
) -> bool {
    match block {
        None => current is None && current_bytes.len() == 0,
        Some(b) => current matches Some(c) && c.0@ == b.0 && c.1@ == b.1 && current_bytes == b.2,
    }
}

impl Easing {
    /// The easings of a multi-script file given as text and as bytes: each line
    /// `@NAME` starts the script `NAME`, whose lines follow up to the next `@` line.
    /// Every easing gets the file's path.
    pub fn from_multi_script_with_bytes(
        path: Option<PathBuf>,
        multi_script: &str,
        multi_script_bytes: &[u8],
    ) -> (r: Vec<Easing>)
        ensures
            r@.len() == script_blocks(multi_script@, multi_script_bytes@).len(),
            forall|i: int|
                0 <= i < r@.len() ==> easing_of_block(
                    #[trigger] r@[i],
                    script_blocks(multi_script@, multi_script_bytes@)[i],
                    path,
                ),
    {
        let chars = str_chars(multi_script);
        let ghost target = split_from(
            SplitState { done: Seq::empty(), current: None },
            zip_lines(lines(multi_script@), byte_lines(multi_script_bytes@)),
        );
        let mut current: Option<(String, String)> = None;
        let mut current_bytes: Vec<u8> = Vec::new();
        let mut easings: Vec<Easing> = Vec::new();
        let mut pc: usize = 0;
        let mut pb: usize = 0;
        let mut bytes_done = false;
        let ghost mut st = SplitState { done: Seq::empty(), current: None };
        assert(chars@.skip(0) =~= chars@);
        assert(multi_script_bytes@.skip(0) =~= multi_script_bytes@);
        while pc < chars.len() && !bytes_done
            invariant
                pc <= chars.len(),
                pb <= multi_script_bytes.len(),
                chars@ == multi_script@,
                split_from(
                    st,
                    zip_lines(
                        lines(chars@.skip(pc as int)),
                        if bytes_done {
                            Seq::empty()
                        } else {
                            byte_lines(multi_script_bytes@.skip(pb as int))
                        },
                    ),
                ) == target,
                easings@.len() == st.done.len(),
                forall|i: int|
                    0 <= i < easings@.len() ==> easing_of_block(#[trigger] easings@[i], st.done[i], path),
                current_matches(current, current_bytes@, st.current),
            decreases chars.len() - pc,
        {
            let ghost rest = chars@.skip(pc as int);
            let ghost rest_b = multi_script_bytes@.skip(pb as int);
            let (line, nl) = next_line(&chars, pc);
            let (line_bytes, bnl) = next_byte_line(multi_script_bytes, pb);
            proof {
                crate::text::lemma_find_char(rest, 0, '\n');
                let tail_lines = if nl >= chars.len() {
                    Seq::<Seq<char>>::empty()
                } else {
                    lines(chars@.skip(nl + 1))
                };
                if nl >= chars.len() {
                    assert(lines(rest) == seq![rest]);
                    assert(first_line(rest) == rest);
                    assert(seq![rest].drop_first() =~= tail_lines);
                } else {
                    assert(lines(rest) == seq![first_line(rest)] + tail_lines);
                    assert((seq![first_line(rest)] + tail_lines).drop_first() =~= tail_lines);
                }
                let tail_b = if bnl >= multi_script_bytes.len() {
                    Seq::<Seq<u8>>::empty()
                } else {
                    byte_lines(multi_script_bytes@.skip(bnl + 1))
                };
                assert(byte_lines(rest_b).drop_first() =~= tail_b);
                lemma_zip_lines_first(lines(rest), byte_lines(rest_b));
            }
            let ghost next_st = split_step(st, line@, line_bytes@);
            if line.len() > 0 && line[0] == '@' {
                if let Some((name, script)) = current {
                    easings.push(
                        Easing::from_script_with_bytes(
                            clone_path(&path),
                            name.as_str(),
                            script.as_str(),
                            current_bytes.as_slice(),
                        ),
                    );
                    current_bytes.clear();
                }
                let mut after_at: Vec<char> = Vec::new();
                crate::text::extend_chars(&mut after_at, &line, 1, line.len());
                assert(after_at@ =~= line@.skip(1));
                let name = trimmed(&after_at);
                assert(current_bytes@.len() == 0);
                if name.len() > 0 {
                    let name_string = string_of(&name, 0, name.len());
                    let script_string = String::new();
                    assert(name@.subrange(0, name@.len() as int) =~= name@);
                    assert(name_string@ == trim(line@.skip(1)));
                    assert(script_string@ =~= Seq::<char>::empty());
                    assert(current_bytes@ =~= Seq::<u8>::empty());
                    current = Some((name_string, script_string));
                    assert(current_matches(current, current_bytes@, next_st.current));
                } else {
                    current = None;
                    assert(current_matches(current, current_bytes@, next_st.current));
                }
            } else {
                match current {
                    Some((name, mut script)) => {
                        let ghost old_script = script@;
                        push_chars(&mut script, &line);
                        push_char(&mut script, '\n');
                        assert(script@ =~= old_script + line@ + seq!['\n']);
                        let mut i: usize = 0;
                        let ghost before = current_bytes@;
                        while i < line_bytes.len()
                            invariant
                                i <= line_bytes.len(),
                                current_bytes@ == before + line_bytes@.take(i as int),
                            decreases line_bytes.len() - i,
                        {
                            current_bytes.push(line_bytes[i]);
                            i = i + 1;
                            assert(current_bytes@ =~= before + line_bytes@.take(i as int));
                        }
                        current_bytes.push(10u8);
                        assert(line_bytes@.take(line_bytes@.len() as int) =~= line_bytes@);
                        assert(current_bytes@ =~= before + line_bytes@ + seq![10u8]);
                        current = Some((name, script));
                        assert(current_matches(current, current_bytes@, next_st.current));
                    },
                    None => {
                        current = None;
                        assert(current_matches(current, current_bytes@, next_st.current));
                    },
                }
            }
            proof {
                st = next_st;
            }
            if nl >= chars.len() {
                pc = chars.len();
                assert(chars@.skip(pc as int) =~= Seq::<char>::empty());
            } else {
                pc = nl + 1;
            }
            if bnl >= multi_script_bytes.len() {
                bytes_done = true;
            } else {
                pb = bnl + 1;
            }
        }
        proof {
            if pc >= chars.len() {
                assert(chars@.skip(pc as int) =~= Seq::<char>::empty());
            }
            let rem_b = if bytes_done {
                Seq::<Seq<u8>>::empty()
            } else {
                byte_lines(multi_script_bytes@.skip(pb as int))
            };
            assert(zip_lines(lines(chars@.skip(pc as int)), rem_b) =~= Seq::<(Seq<char>, Seq<u8>)>::empty());
        }
        if let Some((name, script)) = current {
            easings.push(
                Easing::from_script_with_bytes(
                    path,
                    name.as_str(),
                    script.as_str(),
                    current_bytes.as_slice(),
                ),
            );
        }
        easings
    }

    /// The easings of a multi-script file, stored as its UTF-8 bytes.
    pub fn from_multi_script(path: Option<PathBuf>, multi_script: &str) -> (r: Vec<Easing>)
        ensures
            r@.len() == script_blocks(multi_script@, multi_script.spec_bytes()).len(),
            forall|i: int|
                0 <= i < r@.len() ==> easing_of_block(
                    #[trigger] r@[i],
                    script_blocks(multi_script@, multi_script.spec_bytes())[i],
                    path,
                ),
    {
        Self::from_multi_script_with_bytes(path, multi_script, multi_script.as_bytes())
    }
}

/// Every script named so far has a non-empty name.
pub open spec fn blocks_named(st: SplitState) -> bool {
    &&& forall|i: int| 0 <= i < st.done.len() ==> (#[trigger] st.done[i]).0.len() > 0
    &&& st.current matches Some(b) ==> b.0.len() > 0
}

proof fn lemma_split_from_named(st: SplitState, pairs: Seq<(Seq<char>, Seq<u8>)>)
    requires
        blocks_named(st),
    ensures
        blocks_named(split_from(st, pairs)),
    decreases pairs.len(),
{
    if pairs.len() > 0 {
        let next = split_step(st, pairs[0].0, pairs[0].1);
        assert(blocks_named(next)) by {
            if pairs[0].0.len() > 0 && pairs[0].0[0] == '@' {
                match st.current {
                    Some(b) => {
                        assert forall|i: int| 0 <= i < next.done.len() implies (#[trigger] next.done[i]).0.len()
                            > 0 by {
                            if i < st.done.len() {
                                assert(next.done[i] == st.done[i]);
                            }
                        }
                    },
                    None => {},
                }
            }
        }
        lemma_split_from_named(next, pairs.drop_first());
    }
}

/// Every easing of a multi-script file has a non-empty name: an `@` line without a
/// name starts no script.
pub proof fn lemma_script_blocks_named(text: Seq<char>, bytes: Seq<u8>)
    ensures
        forall|i: int|
            0 <= i < script_blocks(text, bytes).len() ==> (#[trigger] script_blocks(text, bytes)[i]).0.len()
                > 0,
{
    let start = SplitState { done: Seq::empty(), current: None };
    lemma_split_from_named(start, zip_lines(lines(text), byte_lines(bytes)));
    let st = split_from(start, zip_lines(lines(text), byte_lines(bytes)));
    let blocks = script_blocks(text, bytes);
    assert forall|i: int| 0 <= i < blocks.len() implies (#[trigger] blocks[i]).0.len() > 0 by {
        if i < st.done.len() {
            assert(blocks[i] == st.done[i]);
        }
    }
}

impl<P, C> crate::keyframe::EasingKeyframeInfo<P, C> {
    /// The keyframe that starts `easing`: its name, its default acceleration and
    /// deceleration, the given parameter values and time-control curve.
    pub fn for_easing(easing: &Easing, params: Vec<P>, timecontrol: C) -> (r: Self)
        ensures
            r.easing@ == easing.name@,
            r.acceleration == easing.default_acceleration,
            r.deceleration == easing.default_deceleration,
            r.params == params,
            r.timecontrol == timecontrol,
    {
        crate::keyframe::EasingKeyframeInfo {
            easing: easing.name.clone(),
            acceleration: easing.default_acceleration,
            deceleration: easing.default_deceleration,
            params,
            timecontrol,
        }
    }
}

} // verus!
