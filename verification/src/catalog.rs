//! The catalogue of easings: which files in the scripts folder hold easings, how
//! the easings of a file are named and labelled, and the order they are offered in.
use vstd::prelude::*;
use std::path::PathBuf;
use vstd::utf8::encode_utf8;
use crate::easing::{easing_of_block, script_blocks, script_info, Easing, ScriptInfo};
use crate::text::{i32_of_text, parse_i32, str_chars, string_of};

verus! {

// ---------------------------------------------------------------------------
// File names
// ---------------------------------------------------------------------------

/// The position of the last `.` in `name`, or -1.
pub open spec fn last_dot(name: Seq<char>) -> int
    decreases name.len(),
{
    if name.len() == 0 {
        -1
    } else if name.last() == '.' {
        name.len() - 1
    } else {
        last_dot(name.drop_last())
    }
}

/// The name `..`.
pub open spec fn parent_name() -> Seq<char> {
    seq!['.', '.']
}

/// The extension of a file name, as `Path::extension` gives it: what follows the
/// last `.`, unless that dot begins the name or the name is `..`.
pub open spec fn extension(name: Seq<char>) -> Option<Seq<char>> {
    if name == parent_name() || last_dot(name) <= 0 {
        None
    } else {
        Some(name.skip(last_dot(name) + 1))
    }
}

/// The file name without its extension, as `Path::file_stem` gives it.
pub open spec fn file_stem(name: Seq<char>) -> Seq<char> {
    if name == parent_name() || last_dot(name) <= 0 {
        name
    } else {
        name.take(last_dot(name))
    }
}

proof fn lemma_last_dot_bounds(name: Seq<char>)
    ensures
        -1 <= last_dot(name) < name.len(),
        last_dot(name) >= 0 ==> name[last_dot(name)] == '.',
    decreases name.len(),
{
    if name.len() > 0 && name.last() != '.' {
        lemma_last_dot_bounds(name.drop_last());
    }
}

/// The position of the last `.` in `v`, if there is one.
fn find_last_dot(v: &Vec<char>) -> (r: Option<usize>)
    ensures
        match r {
            Some(d) => d == last_dot(v@),
            None => last_dot(v@) == -1,
        },
{
    let mut i = v.len();
    assert(v@.take(i as int) =~= v@);
    while i > 0
        invariant
            i <= v@.len(),
            last_dot(v@) == last_dot(v@.take(i as int)),
        decreases i,
    {
        assert(v@.take(i as int).drop_last() =~= v@.take(i - 1));
        assert(v@.take(i as int).last() == v@[i - 1]);
        if v[i - 1] == '.' {
            return Some(i - 1);
        }
        i = i - 1;
    }
    None
}

/// Whether `v` is the name `..`.
fn is_parent_name(v: &Vec<char>) -> (r: bool)
    ensures
        r == (v@ == parent_name()),
{
    if v.len() == 2 && v[0] == '.' && v[1] == '.' {
        assert(v@ =~= parent_name());
        true
    } else {
        false
    }
}

/// How the text of an easing script file is stored.
#[derive(Debug, Clone, Copy, PartialEq, Eq, Structural)]
pub enum ScriptEncoding {
    /// A `.tra2` file, in UTF-8.
    Utf8,
    /// A `.tra` file, in Shift_JIS.
    ShiftJis,
}

/// How a file is read as an easing script, judged by its extension: `tra2` in
/// UTF-8, `tra` in Shift_JIS; other files hold no easing.
pub open spec fn encoding_of(name: Seq<char>) -> Option<ScriptEncoding> {
    match extension(name) {
        Some(e) => if e == seq!['t', 'r', 'a', '2'] {
            Some(ScriptEncoding::Utf8)
        } else if e == seq!['t', 'r', 'a'] {
            Some(ScriptEncoding::ShiftJis)
        } else {
            None
        },
        None => None,
    }
}

/// How the file named `file_name` is read as an easing script, if it is one.
pub fn script_encoding(file_name: &str) -> (r: Option<ScriptEncoding>)
    ensures
        r == encoding_of(file_name@),
{
    let v = str_chars(file_name);
    if is_parent_name(&v) {
        return None;
    }
    match find_last_dot(&v) {
        None => None,
        Some(d) => {
            if d == 0 {
                return None;
            }
            let n = v.len();
            proof { lemma_last_dot_bounds(v@); }
            let ghost e = v@.skip(d + 1);
            if n - d == 4 && v[d + 1] == 't' && v[d + 2] == 'r' && v[d + 3] == 'a' {
                assert(e =~= seq!['t', 'r', 'a']);
                Some(ScriptEncoding::ShiftJis)
            } else if n - d == 5 && v[d + 1] == 't' && v[d + 2] == 'r' && v[d + 3] == 'a' && v[d
                + 4] == '2' {
                assert(e =~= seq!['t', 'r', 'a', '2']);
                Some(ScriptEncoding::Utf8)
            } else {
                assert(d < n);
                assert(e.len() == n - d - 1);
                assert(e != seq!['t', 'r', 'a']) by {
                    if e == seq!['t', 'r', 'a'] {
                        assert(e[0] == v@[d + 1] && e[1] == v@[d + 2] && e[2] == v@[d + 3]);
                    }
                }
                assert(e != seq!['t', 'r', 'a', '2']) by {
                    if e == seq!['t', 'r', 'a', '2'] {
                        assert(e[0] == v@[d + 1] && e[1] == v@[d + 2] && e[2] == v@[d + 3]
                            && e[3] == v@[d + 4]);
                    }
                }
                None
            }
        },
    }
}

/// The stem of the file named `file_name`.
fn stem_of(file_name: &Vec<char>) -> (r: String)
    ensures
        r@ == file_stem(file_name@),
{
    if is_parent_name(file_name) {
        return string_of(file_name, 0, file_name.len());
    }
    proof { lemma_last_dot_bounds(file_name@); }
    match find_last_dot(file_name) {
        Some(d) => if d > 0 {
            string_of(file_name, 0, d)
        } else {
            string_of(file_name, 0, file_name.len())
        },
        None => string_of(file_name, 0, file_name.len()),
    }
}

// ---------------------------------------------------------------------------
// Reading a file's easings
// ---------------------------------------------------------------------------

/// The text that `encoding_rs::SHIFT_JIS.decode` gives for `bytes`.
pub uninterp spec fn shift_jis_text(bytes: Seq<u8>) -> Seq<char>;

/// The longest input decoded here: below it the buffer sizes that the decoder
/// computes fit in a `usize`.
pub open spec fn max_decoded_len() -> int {
    (usize::MAX / 8) as int
}

/// `encoding_rs::SHIFT_JIS.decode`: the text of `bytes` read as Shift_JIS (a
/// leading byte-order mark selects its encoding instead), with malformed sequences
/// replaced by U+FFFD. The text depends on the bytes alone; nothing more is stated
/// of it. The decoder panics when its buffer size overflows, which `requires`
/// rules out.
#[verifier::external_body]
fn decode_shift_jis(bytes: &[u8]) -> (r: String)
    requires
        bytes@.len() <= max_decoded_len(),
    ensures
        r@ == shift_jis_text(bytes@),
{
    encoding_rs::SHIFT_JIS.decode(bytes).0.into_owned()
}

/// The content of an easing script file, as read from disk.
pub enum ScriptSource {
    /// The file's text, read as UTF-8.
    Text(String),
    /// The file's bytes, to be read as Shift_JIS.
    ShiftJis(Vec<u8>),
}

/// The text of a script file.
pub open spec fn source_text(source: ScriptSource) -> Seq<char> {
    match source {
        ScriptSource::Text(t) => t@,
        ScriptSource::ShiftJis(b) => shift_jis_text(b@),
    }
}

/// Whether `source` can be decoded here.
pub open spec fn source_in_range(source: ScriptSource) -> bool {
    match source {
        ScriptSource::Text(_) => true,
        ScriptSource::ShiftJis(b) => b@.len() <= max_decoded_len(),
    }
}

/// A script's label, or else `fallback`.
pub open spec fn with_label(info: ScriptInfo, fallback: Option<Seq<char>>) -> ScriptInfo {
    ScriptInfo {
        label: match info.label {
            Some(l) => Some(l),
            None => fallback,
        },
        ..info
    }
}

/// The view of an optional string.
pub open spec fn opt_view(s: Option<String>) -> Option<Seq<char>> {
    match s {
        Some(t) => Some(t@),
        None => None,
    }
}

/// Whether a file name marks a multi-script file: it begins with `@`.
pub open spec fn is_multi_script_name(name: Seq<char>) -> bool {
    name.len() > 0 && name[0] == '@'
}

/// The easing `e` comes from `block` of a multi-script file at `path` whose stem is
/// `stem`, in the folder labelled `label`: the stem follows the block's name, and
/// the folder's label stands in for a script that declares none.
pub open spec fn easing_of_file_block(
    e: Easing,
    block: (Seq<char>, Seq<char>, Seq<u8>),
    path: PathBuf,
    stem: Seq<char>,
    label: Option<Seq<char>>,
) -> bool {
    &&& e.name@ == block.0 + stem
    &&& e.script@ == block.1
    &&& e.script_bytes@ == block.2
    &&& e.path == Some(path)
    &&& e.info() == with_label(script_info(block.1), label)
}

/// Gives `e` the folder label `label` when its script declares none.
fn fill_label(e: &mut Easing, label: &Option<String>)
    ensures
        final(e).name == old(e).name,
        final(e).script == old(e).script,
        final(e).script_bytes == old(e).script_bytes,
        final(e).path == old(e).path,
        final(e).info() == with_label(old(e).info(), opt_view(*label)),
{
    if e.label.is_none() {
        e.label = match label {
            Some(l) => Some(l.clone()),
            None => None,
        };
    }
}

/// The easings of the script file `file_name` at `path`, found in the folder
/// labelled `dir_label` (if any). A file whose name begins with `@` holds several
/// scripts, each named by its `@` line followed by the file's stem; any other
/// file holds one script named by its stem. A script that declares no label
/// takes the folder's.
pub fn easings_from_file(
    path: PathBuf,
    file_name: &str,
    dir_label: Option<String>,
    source: ScriptSource,
) -> (r: Vec<Easing>)
    requires
        source_in_range(source),
    ensures
        ({
            let text = source_text(source);
            let stem = file_stem(file_name@);
            let label = opt_view(dir_label);
            &&& is_multi_script_name(file_name@) ==> {
                let blocks = script_blocks(text, encode_utf8(text));
                &&& r@.len() == blocks.len()
                &&& forall|i: int|
                    0 <= i < r@.len() ==> easing_of_file_block(
                        #[trigger] r@[i],
                        blocks[i],
                        path,
                        stem,
                        label,
                    )
            }
            &&& !is_multi_script_name(file_name@) ==> {
                &&& r@.len() == 1
                &&& r@[0].name@ == stem
                &&& r@[0].script@ == text
                &&& r@[0].script_bytes@ == encode_utf8(text)
                &&& r@[0].path == Some(path)
                &&& r@[0].info() == with_label(script_info(text), label)
            }
        }),
{
    let ghost text_spec = source_text(source);
    let text = match source {
        ScriptSource::Text(t) => t,
        ScriptSource::ShiftJis(b) => decode_shift_jis(b.as_slice()),
    };
    assert(text@ == text_spec);
    let name = str_chars(file_name);
    let stem = stem_of(&name);
    let multi = name.len() > 0 && name[0] == '@';
    if multi {
        let ghost blocks = script_blocks(text@, encode_utf8(text@));
        let mut scripts = Easing::from_multi_script(Some(path), text.as_str());
        let n = scripts.len();
        let mut i: usize = 0;
        while i < n
            invariant
                n == scripts@.len() == blocks.len(),
                i <= n,
                forall|j: int|
                    0 <= j < i ==> easing_of_file_block(
                        #[trigger] scripts@[j],
                        blocks[j],
                        path,
                        stem@,
                        opt_view(dir_label),
                    ),
                forall|j: int|
                    i <= j < n ==> easing_of_block(#[trigger] scripts@[j], blocks[j], Some(path)),
            decreases n - i,
        {
            let ghost orig = scripts@;
            let mut e = scripts.remove(i);
            let mut full = str_chars(e.name.as_str());
            let stem_chars = str_chars(stem.as_str());
            let full_len = full.len();
            crate::text::extend_chars(&mut full, &stem_chars, 0, stem_chars.len());
            assert(full@ =~= e.name@ + stem@);
            e.name = string_of(&full, 0, full.len());
            assert(full@.subrange(0, full@.len() as int) =~= full@);
            fill_label(&mut e, &dir_label);
            let ghost done = e;
            scripts.insert(i, e);
            assert(scripts@ =~= orig.update(i as int, done));
            i = i + 1;
        }
        scripts
    } else {
        let mut e = Easing::from_script(Some(path), stem.as_str(), text.as_str());
        fill_label(&mut e, &dir_label);
        let mut out: Vec<Easing> = Vec::new();
        out.push(e);
        out
    }
}

// ---------------------------------------------------------------------------
// The offered list
// ---------------------------------------------------------------------------

/// The name that the plugin's own alias uses, which no easing may take.
pub open spec fn reserved_name() -> Seq<char> {
    seq!['k', 'e', 'y', 'f', 'r', 'a', 'm', 'e', 's', '.', 'a', 'u', 'x', '2']
}

/// Whether an easing may be offered: it does not take the reserved name.
pub open spec fn offerable(e: Easing) -> bool {
    e.name@ != reserved_name()
}

/// The easings of `s` that may be offered, in their order.
pub open spec fn offered(s: Seq<Easing>) -> Seq<Easing> {
    s.filter(|e: Easing| offerable(e))
}

/// The easings without any that takes the reserved name, in their order.
pub fn without_reserved(easings: Vec<Easing>) -> (r: Vec<Easing>)
    ensures
        r@ == offered(easings@),
{
    let ghost all = easings@;
    let reserved = str_chars("keyframes.aux2");
    proof {
        reveal_strlit("keyframes.aux2");
    }
    assert(reserved@ =~= reserved_name());
    let mut rest = easings;
    let mut out: Vec<Easing> = Vec::new();
    let n = rest.len();
    let mut i: usize = 0;
    assert(all.take(0) =~= Seq::<Easing>::empty());
    assert(rest@ =~= all.skip(0));
    proof {
        reveal(Seq::filter);
    }
    while i < n
        invariant
            n == all.len(),
            i <= n,
            rest@ == all.skip(i as int),
            reserved@ == reserved_name(),
            out@ == offered(all.take(i as int)),
        decreases n - i,
    {
        let e = rest.remove(0);
        assert(e == all[i as int]);
        assert(all.take(i + 1).drop_last() =~= all.take(i as int));
        assert(all.take(i + 1).last() == e);
        assert(rest@ =~= all.skip(i + 1));
        let name = str_chars(e.name.as_str());
        let mut same = name.len() == reserved.len();
        let mut k: usize = 0;
        while same && k < name.len()
            invariant
                k <= name@.len(),
                same ==> name@.len() == reserved@.len(),
                same ==> forall|j: int| 0 <= j < k ==> name@[j] == reserved@[j],
                !same ==> name@ != reserved@,
            decreases name@.len() - k,
        {
            if name[k] != reserved[k] {
                same = false;
            }
            k = k + 1;
        }
        if same {
            assert(name@ =~= reserved@);
        }
        proof {
            reveal(Seq::filter);
        }
        if !same {
            out.push(e);
        }
        i = i + 1;
    }
    assert(all.take(n as int) =~= all);
    out
}

/// The place that the setting `order` gives an easing: its value as an `i32`, or
/// last (`i32::MAX`) when the setting is missing or not a number.
pub open spec fn order_of(setting: Option<Seq<char>>) -> i32 {
    match setting {
        Some(s) => match i32_of_text(s) {
            Some(v) => v,
            None => i32::MAX,
        },
        None => i32::MAX,
    }
}

/// The place that the setting `order` (if present) gives an easing.
pub fn order_key(setting: Option<&str>) -> (r: i32)
    ensures
        r == order_of(match setting {
            Some(s) => Some(s@),
            None => None,
        }),
{
    match setting {
        Some(s) => match parse_i32(s) {
            Some(v) => v,
            None => i32::MAX,
        },
        None => i32::MAX,
    }
}

/// Item `x` comes before item `y` when ordered by `keys`, ties broken by position.
pub open spec fn comes_before(keys: Seq<i32>, x: int, y: int) -> bool {
    keys[x] < keys[y] || (keys[x] == keys[y] && x < y)
}

/// `p` lists the positions `0..keys.len()` each once, ordered by their keys, and
/// positions with equal keys in increasing order.
pub open spec fn stable_order(p: Seq<int>, keys: Seq<i32>) -> bool {
    &&& p.len() == keys.len()
    &&& forall|i: int| 0 <= i < p.len() ==> 0 <= #[trigger] p[i] < keys.len()
    &&& forall|i: int, j: int|
        0 <= i < j < p.len() ==> comes_before(keys, #[trigger] p[i], #[trigger] p[j])
}

/// The items of `s` at the positions `p`, in that order.
pub open spec fn pick(s: Seq<Easing>, p: Seq<int>) -> Seq<Easing> {
    p.map_values(|i: int| s[i])
}

/// The easings ordered by `keys` (the key of each easing at the same position),
/// easings with equal keys kept in their order: a stable sort.
pub fn sort_by_order(easings: Vec<Easing>, keys: &Vec<i32>) -> (r: Vec<Easing>)
    requires
        keys@.len() == easings@.len(),
    ensures
        exists|p: Seq<int>| stable_order(p, keys@) && r@ == pick(easings@, p),
{
    let ghost all = easings@;
    let n = easings.len();
    let mut rest = easings;
    let mut out: Vec<Easing> = Vec::new();
    let mut out_keys: Vec<i32> = Vec::new();
    let ghost mut p: Seq<int> = Seq::empty();
    let mut i: usize = 0;
    assert(rest@ =~= all.skip(0));
    while i < n
        invariant
            n == all.len() == keys@.len(),
            i <= n,
            rest@ == all.skip(i as int),
            p.len() == out@.len() == out_keys@.len() == i,
            forall|m: int| 0 <= m < i ==> 0 <= #[trigger] p[m] < i,
            forall|m: int| 0 <= m < i ==> out@[m] == all[#[trigger] p[m]],
            forall|m: int| 0 <= m < i ==> out_keys@[m] == keys@[#[trigger] p[m]],
            forall|a: int, b: int|
                0 <= a < b < i ==> comes_before(keys@, #[trigger] p[a], #[trigger] p[b]),
        decreases n - i,
    {
        let e = rest.remove(0);
        assert(e == all[i as int]);
        assert(rest@ =~= all.skip(i + 1));
        let k = keys[i];
        let mut j: usize = 0;
        while j < out_keys.len() && out_keys[j] <= k
            invariant
                j <= out_keys@.len(),
                forall|m: int| 0 <= m < j ==> out_keys@[m] <= k,
            decreases out_keys@.len() - j,
        {
            j = j + 1;
        }
        assert forall|m: int| j <= m < i implies out_keys@[m] > k by {
            if m > j {
                assert(comes_before(keys@, p[j as int], p[m]));
            }
        }
        let ghost old_p = p;
        let ghost old_keys = out_keys@;
        out.insert(j, e);
        out_keys.insert(j, k);
        proof {
            p = old_p.insert(j as int, i as int);
            assert forall|a: int, b: int| 0 <= a < b < i + 1 implies comes_before(
                keys@,
                #[trigger] p[a],
                #[trigger] p[b],
            ) by {
                if b < j {
                    assert(p[a] == old_p[a] && p[b] == old_p[b]);
                } else if b == j {
                    assert(p[a] == old_p[a]);
                    assert(old_keys[a] == keys@[old_p[a]]);
                } else if a < j {
                    assert(p[a] == old_p[a] && p[b] == old_p[b - 1]);
                } else if a == j {
                    assert(p[b] == old_p[b - 1]);
                    assert(old_keys[b - 1] == keys@[old_p[b - 1]]);
                } else {
                    assert(p[a] == old_p[a - 1] && p[b] == old_p[b - 1]);
                }
            }
            assert forall|m: int| 0 <= m < i + 1 implies out@[m] == all[#[trigger] p[m]] by {
                if m < j {
                    assert(p[m] == old_p[m]);
                } else if m > j {
                    assert(p[m] == old_p[m - 1]);
                }
            }
            assert forall|m: int| 0 <= m < i + 1 implies out_keys@[m] == keys@[#[trigger] p[m]] by {
                if m < j {
                    assert(p[m] == old_p[m]);
                } else if m > j {
                    assert(p[m] == old_p[m - 1]);
                }
            }
            assert forall|m: int| 0 <= m < i + 1 implies 0 <= #[trigger] p[m] < i + 1 by {
                if m < j {
                    assert(p[m] == old_p[m]);
                } else if m > j {
                    assert(p[m] == old_p[m - 1]);
                }
            }
        }
        i = i + 1;
    }
    assert(stable_order(p, keys@));
    assert(out@ =~= pick(all, p));
    out
}

} // verus!
