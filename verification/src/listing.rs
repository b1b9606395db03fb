//! The listing of the pages directory: which files are pages, and the
//! names under which they are served, in order.

use vstd::prelude::*;
use vstd::string::*;

use crate::text::{chars_of, lemma_rfind, rfind, rfind_char, string_of};

verus! {

broadcast use vstd::seq_lib::to_multiset_insert;

/// The extension of a file name, as `Path::extension` finds it: the text
/// after its last `.`, unless there is none, the name starts with its only
/// `.`, or the name is `..`.
pub open spec fn extension_of(name: Seq<char>) -> Option<Seq<char>> {
    if name == seq!['.', '.'] {
        None
    } else {
        match rfind(name, '.') {
            None => None,
            Some(i) => if i == 0 {
                None
            } else {
                Some(name.skip(i + 1))
            },
        }
    }
}

/// A page file: its extension is `mu` in any ASCII letter case.
pub open spec fn is_page_name(name: Seq<char>) -> bool {
    match extension_of(name) {
        Some(e) => e.len() == 2 && (e[0] == 'm' || e[0] == 'M') && (e[1] == 'u' || e[1] == 'U'),
        None => false,
    }
}

/// Whether the file named `file_name` is a page.
pub fn is_page_file(file_name: &str) -> (b: bool)
    ensures
        b == is_page_name(file_name@),
{
    let name = chars_of(file_name);
    proof { lemma_rfind(name@, '.'); }
    if name.len() == 2 && name[0] == '.' && name[1] == '.' {
        assert(name@ =~= seq!['.', '.']);
        return false;
    }
    assert(name@ != seq!['.', '.']) by {
        if name@ == seq!['.', '.'] {
            assert(name@.len() == 2 && name@[0] == '.' && name@[1] == '.');
        }
    }
    match rfind_char(&name, '.') {
        None => false,
        Some(i) => {
            if i == 0 {
                return false;
            }
            let n = name.len();
            if n - (i + 1) != 2 {
                assert(name@.skip(i + 1).len() == n - (i + 1));
                return false;
            }
            let a = name[i + 1];
            let b = name[i + 2];
            assert(name@.skip(i + 1)[0] == a && name@.skip(i + 1)[1] == b);
            (a == 'm' || a == 'M') && (b == 'u' || b == 'U')
        },
    }
}

/// `s` with every `\` turned into `/`.
pub open spec fn forward_slashes(s: Seq<char>) -> Seq<char> {
    s.map_values(|c: char| if c == '\\' { '/' } else { c })
}

/// `a` comes no later than `b` in the order of their characters' code
/// points, which is the order of their UTF-8 bytes and so the order of
/// `str`'s `Ord`.
pub open spec fn lex_le(a: Seq<char>, b: Seq<char>) -> bool
    decreases a.len(),
{
    if a.len() == 0 {
        true
    } else if b.len() == 0 {
        false
    } else if a[0] != b[0] {
        a[0] < b[0]
    } else {
        lex_le(a.drop_first(), b.drop_first())
    }
}

/// Any two texts are ordered one way or the other.
pub proof fn lemma_lex_total(a: Seq<char>, b: Seq<char>)
    ensures
        lex_le(a, b) || lex_le(b, a),
    decreases a.len(),
{
    if a.len() > 0 && b.len() > 0 && a[0] == b[0] {
        lemma_lex_total(a.drop_first(), b.drop_first());
    }
}

/// Texts ordered both ways are equal.
pub proof fn lemma_lex_antisymmetric(a: Seq<char>, b: Seq<char>)
    requires
        lex_le(a, b),
        lex_le(b, a),
    ensures
        a == b,
    decreases a.len(),
{
    if a.len() > 0 && b.len() > 0 {
        lemma_lex_antisymmetric(a.drop_first(), b.drop_first());
        assert(a =~= seq![a[0]] + a.drop_first());
        assert(b =~= seq![b[0]] + b.drop_first());
    }
}

/// The order is transitive.
pub proof fn lemma_lex_transitive(a: Seq<char>, b: Seq<char>, c: Seq<char>)
    requires
        lex_le(a, b),
        lex_le(b, c),
    ensures
        lex_le(a, c),
    decreases a.len(),
{
    if a.len() > 0 && b.len() > 0 && c.len() > 0 && a[0] == b[0] && b[0] == c[0] {
        lemma_lex_transitive(a.drop_first(), b.drop_first(), c.drop_first());
    }
}

/// Every text is ordered before itself.
pub proof fn lemma_lex_reflexive(a: Seq<char>)
    ensures
        lex_le(a, a),
    decreases a.len(),
{
    if a.len() > 0 {
        lemma_lex_reflexive(a.drop_first());
    }
}

/// Whether `a` comes no later than `b`.
fn chars_le(a: &Vec<char>, b: &Vec<char>) -> (r: bool)
    ensures
        r == lex_le(a@, b@),
{
    let mut i: usize = 0;
    assert(a@.skip(0) =~= a@ && b@.skip(0) =~= b@);
    while i < a.len() && i < b.len() && a[i] == b[i]
        invariant
            i <= a@.len(),
            i <= b@.len(),
            forall|k: int| 0 <= k < i ==> a@[k] == b@[k],
            lex_le(a@, b@) == lex_le(a@.skip(i as int), b@.skip(i as int)),
        decreases a@.len() - i,
    {
        assert(a@.skip(i as int).drop_first() =~= a@.skip(i + 1));
        assert(b@.skip(i as int).drop_first() =~= b@.skip(i + 1));
        i = i + 1;
    }
    if i == a.len() {
        true
    } else if i == b.len() {
        false
    } else {
        a[i] < b[i]
    }
}

/// The views of a sequence of character vectors.
pub open spec fn char_views(v: Seq<Vec<char>>) -> Seq<Seq<char>> {
    v.map_values(|c: Vec<char>| c@)
}

/// The views of a sequence of strings.
pub open spec fn string_views(v: Seq<String>) -> Seq<Seq<char>> {
    v.map_values(|s: String| s@)
}

/// Each text comes no later than every text after it.
pub open spec fn lex_sorted(s: Seq<Seq<char>>) -> bool {
    forall|i: int, j: int| 0 <= i < j < s.len() ==> lex_le(#[trigger] s[i], #[trigger] s[j])
}

/// `s` with every `\` turned into `/`.
fn with_forward_slashes(s: &str) -> (v: Vec<char>)
    ensures
        v@ == forward_slashes(s@),
{
    let chars = chars_of(s);
    let mut v: Vec<char> = Vec::new();
    let mut i: usize = 0;
    while i < chars.len()
        invariant
            i <= chars@.len(),
            chars@ == s@,
            v@ == forward_slashes(s@).take(i as int),
        decreases chars@.len() - i,
    {
        let c = chars[i];
        let d = if c == '\\' { '/' } else { c };
        v.push(d);
        assert(forward_slashes(s@).take(i + 1) =~= forward_slashes(s@).take(i as int).push(d));
        i = i + 1;
    }
    assert(forward_slashes(s@).take(i as int) =~= forward_slashes(s@));
    v
}

/// The served names of the pages found at the relative paths `rel_paths`:
/// each path with `/` as its separator, sorted.
pub fn sorted_page_names(rel_paths: &[String]) -> (names: Vec<String>)
    ensures
        lex_sorted(string_views(names@)),
        string_views(names@).to_multiset() == string_views(rel_paths@).map_values(
            |p: Seq<char>| forward_slashes(p),
        ).to_multiset(),
{
    let ghost input = string_views(rel_paths@).map_values(|p: Seq<char>| forward_slashes(p));
    let mut sorted: Vec<Vec<char>> = Vec::new();
    let mut i: usize = 0;
    proof {
        assert(input.take(0) =~= Seq::<Seq<char>>::empty());
        assert(char_views(sorted@) =~= Seq::<Seq<char>>::empty());
    }
    while i < rel_paths.len()
        invariant
            i <= rel_paths@.len(),
            input == string_views(rel_paths@).map_values(|p: Seq<char>| forward_slashes(p)),
            lex_sorted(char_views(sorted@)),
            char_views(sorted@).to_multiset() == input.take(i as int).to_multiset(),
        decreases rel_paths@.len() - i,
    {
        let x = with_forward_slashes(rel_paths[i].as_str());
        assert(x@ == input[i as int]);
        let ghost s = char_views(sorted@);
        let mut j: usize = 0;
        while j < sorted.len() && chars_le(&sorted[j], &x)
            invariant
                j <= sorted@.len(),
                s == char_views(sorted@),
                forall|k: int| 0 <= k < j ==> lex_le(#[trigger] s[k], x@),
            decreases sorted@.len() - j,
        {
            j = j + 1;
        }
        proof {
            if j < s.len() {
                assert(!lex_le(s[j as int], x@));
                lemma_lex_total(s[j as int], x@);
            }
        }
        sorted.insert(j, x);
        proof {
            let t = char_views(sorted@);
            assert(t =~= s.insert(j as int, x@));
            assert forall|a: int, b: int| 0 <= a < b < t.len() implies lex_le(#[trigger] t[a], #[trigger] t[b]) by {
                if a < j && b == j {
                } else if a == j {
                    if b > j + 1 {
                        assert(lex_le(s[j as int], s[b - 1]));
                        lemma_lex_transitive(x@, s[j as int], s[b - 1]);
                    }
                } else if a < j && b > j {
                    assert(lex_le(s[a], s[b - 1]));
                } else if a > j {
                    assert(lex_le(s[a - 1], s[b - 1]));
                } else {
                    assert(lex_le(s[a], s[b]));
                }
            }
            assert(input.take(i + 1) =~= input.take(i as int).push(x@));
            assert(input.take(i as int).push(x@) =~= input.take(i as int).insert(i as int, x@));
        }
        i = i + 1;
    }
    assert(input.take(i as int) =~= input);
    let mut names: Vec<String> = Vec::new();
    let mut k: usize = 0;
    while k < sorted.len()
        invariant
            k <= sorted@.len(),
            string_views(names@) == char_views(sorted@).take(k as int),
        decreases sorted@.len() - k,
    {
        let s = string_of(sorted[k].as_slice());
        let ghost prev = names@;
        names.push(s);
        assert(string_views(names@) =~= string_views(prev).push(s@));
        assert(string_views(names@) =~= char_views(sorted@).take(k + 1));
        k = k + 1;
    }
    assert(char_views(sorted@).take(k as int) =~= char_views(sorted@));
    names
}

} // verus!
