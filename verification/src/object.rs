//! Facts read off the selected object: its section frames, how its effects are
//! numbered, and the name to show for it.
use vstd::prelude::*;
use crate::effect::EffectType;
use crate::text::{find_char, lemma_find_char, find_char_exec, str_chars, parse_usize, usize_of_digits};

verus! {

/// `s` split at each comma (`str::split(',')`): one piece more than there are commas.
pub open spec fn split_commas(s: Seq<char>) -> Seq<Seq<char>>
    decreases s.len(),
{
    let c = find_char(s, 0, ',');
    if c >= s.len() {
        seq![s]
    } else {
        proof { lemma_find_char(s, 0, ','); }
        seq![s.take(c)] + split_commas(s.skip(c + 1))
    }
}

/// `usize::from_str`: an optional `+`, then ASCII digits whose value fits.
pub open spec fn usize_from_str(p: Seq<char>) -> Option<usize> {
    if p.len() > 0 && p[0] == '+' {
        usize_of_digits(p.skip(1))
    } else {
        usize_of_digits(p)
    }
}

/// The pieces that read as numbers, read, in order.
pub open spec fn parsed_pieces(ps: Seq<Seq<char>>) -> Seq<usize>
    decreases ps.len(),
{
    if ps.len() == 0 {
        Seq::empty()
    } else {
        match usize_from_str(ps[0]) {
            Some(v) => seq![v] + parsed_pieces(ps.drop_first()),
            None => parsed_pieces(ps.drop_first()),
        }
    }
}

/// Reads `v[from..to]` as `usize::from_str` does.
fn parse_piece(v: &Vec<char>, from: usize, to: usize) -> (r: Option<usize>)
    requires
        from <= to <= v.len(),
    ensures
        r == usize_from_str(v@.subrange(from as int, to as int)),
{
    let ghost p = v@.subrange(from as int, to as int);
    if from < to && v[from] == '+' {
        assert(p.skip(1) =~= v@.subrange(from + 1, to as int));
        parse_usize(v, from + 1, to)
    } else {
        parse_usize(v, from, to)
    }
}

/// The section frames of an object from its `frame` value: the comma-separated
/// pieces that read as numbers; the others are skipped.
pub fn parse_frames(value: &str) -> (r: Vec<usize>)
    ensures
        r@ == parsed_pieces(split_commas(value@)),
{
    let v = str_chars(value);
    let mut out: Vec<usize> = Vec::new();
    let mut pos: usize = 0;
    assert(v@.skip(0) =~= v@);
    loop
        invariant
            pos <= v.len(),
            v@ == value@,
            out@ + parsed_pieces(split_commas(v@.skip(pos as int))) == parsed_pieces(
                split_commas(value@),
            ),
        decreases v.len() - pos,
    {
        let ghost rest = v@.skip(pos as int);
        let c = find_char_exec(&v, pos, ',');
        proof {
            lemma_find_char(v@, pos as int, ',');
            crate::text::lemma_find_char_shift(v@, pos as int, 0, ',');
        }
        let piece = parse_piece(&v, pos, c);
        let ghost before = out@;
        assert(v@.subrange(pos as int, c as int) =~= rest.take(c - pos));
        if c >= v.len() {
            assert(rest.take(c - pos) =~= rest);
            assert(split_commas(rest) == seq![rest]);
            assert(seq![rest].drop_first() =~= Seq::<Seq<char>>::empty());
            match piece {
                Some(n) => {
                    out.push(n);
                    assert(out@ =~= before + seq![n]);
                },
                None => {},
            }
            proof {
                assert(parsed_pieces(Seq::<Seq<char>>::empty()) =~= Seq::<usize>::empty());
                assert(out@ =~= out@ + Seq::<usize>::empty());
            }
            return out;
        }
        let ghost tail = split_commas(v@.skip(c + 1));
        assert(rest.skip(c - pos + 1) =~= v@.skip(c + 1));
        assert(split_commas(rest) == seq![rest.take(c - pos)] + tail);
        assert((seq![rest.take(c - pos)] + tail).drop_first() =~= tail);
        match piece {
            Some(n) => {
                out.push(n);
                assert(out@ + parsed_pieces(tail) =~= before + (seq![n] + parsed_pieces(tail)));
            },
            None => {},
        }
        pos = c + 1;
    }
}

/// How many of the names before position `j` equal `name`.
pub open spec fn count_name(names: Seq<Seq<char>>, j: int, name: Seq<char>) -> nat
    decreases j,
{
    if j <= 0 {
        0
    } else {
        count_name(names, j - 1, name) + if names[j - 1] == name { 1nat } else { 0nat }
    }
}

proof fn lemma_count_bound(names: Seq<Seq<char>>, j: int, name: Seq<char>)
    requires
        0 <= j,
    ensures
        count_name(names, j, name) <= j,
    decreases j,
{
    if j > 0 {
        lemma_count_bound(names, j - 1, name);
    }
}

/// The index of each effect among the effects of the same name: the first of a
/// name is 0, the next 1, and so on.
pub fn effect_indices(names: &Vec<String>) -> (r: Vec<usize>)
    ensures
        r@.len() == names@.len(),
        forall|i: int|
            0 <= i < names@.len() ==> r@[i] == count_name(names@.map_values(|n: String| n@), i, names@[i]@),
{
    let ghost views = names@.map_values(|n: String| n@);
    let mut out: Vec<usize> = Vec::new();
    let mut i: usize = 0;
    while i < names.len()
        invariant
            i <= names@.len(),
            views == names@.map_values(|n: String| n@),
            out@.len() == i,
            forall|k: int| 0 <= k < i ==> out@[k] == count_name(views, k, names@[k]@),
        decreases names@.len() - i,
    {
        let mut count: usize = 0;
        let mut j: usize = 0;
        while j < i
            invariant
                j <= i < names@.len(),
                views == names@.map_values(|n: String| n@),
                count == count_name(views, j as int, names@[i as int]@),
            decreases i - j,
        {
            proof { lemma_count_bound(views, j as int, names@[i as int]@); }
            assert(views[j as int] == names@[j as int]@);
            if names[j] == names[i] {
                count = count + 1;
            }
            j = j + 1;
        }
        out.push(count);
        i = i + 1;
    }
    out
}

/// The name to show for an object the host gives no name: the first effect that is
/// not an object control, else the first effect, else "Unknown Object".
pub fn fallback_object_name(effects: &Vec<(String, EffectType)>) -> (r: String)
    ensures
        (exists|i: int| 0 <= i < effects@.len() && effects@[i].1 != EffectType::Control) ==> {
            let i = choose|i: int|
                0 <= i < effects@.len() && effects@[i].1 != EffectType::Control && forall|k: int|
                    0 <= k < i ==> effects@[k].1 == EffectType::Control;
            r@ == effects@[i].0@
        },
        (forall|i: int| 0 <= i < effects@.len() ==> effects@[i].1 == EffectType::Control)
            && effects@.len() > 0 ==> r@ == effects@[0].0@,
        effects@.len() == 0 ==> r@ == "Unknown Object"@,
{
    let mut i: usize = 0;
    while i < effects.len()
        invariant
            i <= effects@.len(),
            forall|k: int| 0 <= k < i ==> effects@[k].1 == EffectType::Control,
        decreases effects@.len() - i,
    {
        if effects[i].1 != EffectType::Control {
            let ghost w = choose|j: int|
                0 <= j < effects@.len() && effects@[j].1 != EffectType::Control && forall|k: int|
                    0 <= k < j ==> effects@[k].1 == EffectType::Control;
            assert(0 <= i < effects@.len() && effects@[i as int].1 != EffectType::Control && forall|k: int|
                0 <= k < i ==> effects@[k].1 == EffectType::Control);
            assert(w == i) by {
                if w < i {
                } else if w > i {
                    assert(effects@[i as int].1 == EffectType::Control);
                }
            }
            return effects[i].0.clone();
        }
        i = i + 1;
    }
    if effects.len() > 0 {
        effects[0].0.clone()
    } else {
        "Unknown Object".to_owned()
    }
}

} // verus!
