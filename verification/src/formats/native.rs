//! Names of the files of the native text format of Stratum Modern.

use vstd::prelude::*;
use crate::formats::cls::LinkStyle;
use crate::formats::json::{json_view, members_of_pairs, object, pairs_view, Json, JsonView};
use crate::numtext::{decimal, decimal_text, lemma_decimal_digits, lemma_decimal_injective, lemma_digits_len, push_decimal};
use crate::text::{ascii_lower, chars_of, eq_ignore_ascii_case, str_eq_ignore_ascii_case, string_of_chars};
use vstd::set_lib::{lemma_int_range, lemma_len_subset, lemma_map_size, set_int_range};

verus! {

pub const FORMAT: &'static str = "stratum-modern/1";

pub const PROJECT_FILE: &'static str = "project.json";

/// A control character: the Unicode general category Cc, which is
/// U+0000–U+001F and U+007F–U+009F.
pub open spec fn is_control(c: char) -> bool {
    (c as u32) < 0x20 || (0x7F <= (c as u32) && (c as u32) <= 0x9F)
}

/// A character that Windows or a URL does not take in a file name.
pub open spec fn unsafe_in_name(c: char) -> bool {
    is_control(c) || c == '<' || c == '>' || c == ':' || c == '"' || c == '/' || c == '\\' || c
        == '|' || c == '?' || c == '*'
}

/// The name with each unsafe character replaced by `_`.
pub open spec fn name_mapped(s: Seq<char>) -> Seq<char> {
    Seq::new(s.len(), |i: int| if unsafe_in_name(s[i]) { '_' } else { s[i] })
}

pub open spec fn dot_or_space(c: char) -> bool {
    c == '.' || c == ' '
}

/// The first index from `i` that is not a dot or a space.
pub open spec fn lead_dots(s: Seq<char>, i: int) -> int
    decreases s.len() - i,
{
    if i < 0 || i >= s.len() || !dot_or_space(s[i]) {
        i
    } else {
        lead_dots(s, i + 1)
    }
}

/// The end once the dots and spaces before `j` (and after `lo`) are dropped.
pub open spec fn trail_dots(s: Seq<char>, j: int, lo: int) -> int
    decreases j - lo,
{
    if j <= lo || j > s.len() || !dot_or_space(s[j - 1]) {
        j
    } else {
        trail_dots(s, j - 1, lo)
    }
}

/// The file name for an image: unsafe characters become `_`, dots and
/// spaces at either end go; what is left empty becomes `image`.
pub open spec fn stem_of(name: Seq<char>) -> Seq<char> {
    let m = name_mapped(name);
    let lo = lead_dots(m, 0);
    let t = m.subrange(lo, trail_dots(m, m.len() as int, lo));
    if t.len() == 0 {
        "image"@
    } else {
        t
    }
}

fn control(c: char) -> (b: bool)
    ensures
        b == is_control(c),
{
    let v = c as u32;
    v < 0x20 || (0x7F <= v && v <= 0x9F)
}

pub proof fn lemma_lead_dots(s: Seq<char>, i: int)
    requires
        0 <= i <= s.len(),
    ensures
        i <= lead_dots(s, i) <= s.len(),
    decreases s.len() - i,
{
    if i < s.len() && dot_or_space(s[i]) {
        lemma_lead_dots(s, i + 1);
    }
}

pub proof fn lemma_trail_dots(s: Seq<char>, j: int, lo: int)
    requires
        0 <= lo <= j <= s.len(),
    ensures
        lo <= trail_dots(s, j, lo) <= j,
    decreases j - lo,
{
    if j > lo && dot_or_space(s[j - 1]) {
        lemma_trail_dots(s, j - 1, lo);
    }
}

pub proof fn lemma_lead_dots_stop(s: Seq<char>, i: int)
    requires
        0 <= i <= s.len(),
    ensures
        lead_dots(s, i) < s.len() ==> !dot_or_space(s[lead_dots(s, i)]),
        forall|k: int| i <= k < lead_dots(s, i) ==> dot_or_space(#[trigger] s[k]),
    decreases s.len() - i,
{
    if i < s.len() && dot_or_space(s[i]) {
        lemma_lead_dots_stop(s, i + 1);
    }
}

pub proof fn lemma_trail_dots_stop(s: Seq<char>, j: int, lo: int)
    requires
        0 <= lo <= j <= s.len(),
    ensures
        trail_dots(s, j, lo) > lo ==> !dot_or_space(s[trail_dots(s, j, lo) - 1]),
        forall|k: int| trail_dots(s, j, lo) <= k < j ==> dot_or_space(#[trigger] s[k]),
    decreases j - lo,
{
    if j > lo && dot_or_space(s[j - 1]) {
        lemma_trail_dots_stop(s, j - 1, lo);
    }
}

/// A name holds no character that Windows or a URL does not take, and
/// neither starts nor ends with a dot or a space.
pub open spec fn clean_stem(r: Seq<char>) -> bool {
    &&& r.len() > 0
    &&& forall|i: int| 0 <= i < r.len() ==> !unsafe_in_name(#[trigger] r[i])
    &&& !dot_or_space(r[0])
    &&& !dot_or_space(r[r.len() - 1])
}

/// The stem of a clean name is the name itself.
pub proof fn lemma_clean_stem_fixed(r: Seq<char>)
    requires
        clean_stem(r),
    ensures
        stem_of(r) == r,
{
    let m = name_mapped(r);
    assert(m =~= r);
    assert(lead_dots(m, 0) == 0);
    assert(trail_dots(m, m.len() as int, 0) == m.len());
    assert(m.subrange(0, m.len() as int) =~= r);
}

/// What `file_stem` gives is never empty, holds no character that Windows
/// or a URL does not take, neither starts nor ends with a dot or a space,
/// and is its own stem; a name that is empty or all dots and spaces gives
/// `image`.
pub proof fn law_stem_is_clean(name: Seq<char>)
    ensures
        clean_stem(stem_of(name)),
        stem_of(stem_of(name)) == stem_of(name),
        (forall|i: int| 0 <= i < name.len() ==> dot_or_space(#[trigger] name[i])) ==> stem_of(name)
            == "image"@,
{
    reveal_strlit("image");
    let m = name_mapped(name);
    let lo = lead_dots(m, 0);
    lemma_lead_dots(m, 0);
    lemma_lead_dots_stop(m, 0);
    let hi = trail_dots(m, m.len() as int, lo);
    lemma_trail_dots(m, m.len() as int, lo);
    lemma_trail_dots_stop(m, m.len() as int, lo);
    let t = m.subrange(lo, hi);
    assert forall|i: int| 0 <= i < m.len() implies !unsafe_in_name(#[trigger] m[i]) by {}
    let img = "image"@;
    assert(img =~= seq!['i', 'm', 'a', 'g', 'e']);
    if t.len() == 0 {
        assert(clean_stem(img));
    } else {
        assert(t[0] == m[lo]);
        assert(t[t.len() - 1] == m[hi - 1]);
        assert(clean_stem(t));
    }
    lemma_clean_stem_fixed(stem_of(name));
    if forall|i: int| 0 <= i < name.len() ==> dot_or_space(#[trigger] name[i]) {
        assert forall|i: int| 0 <= i < m.len() implies dot_or_space(#[trigger] m[i]) by {
            assert(dot_or_space(name[i]));
        }
        if lo < m.len() {
            assert(dot_or_space(m[lo]));
        }
        assert(lo == m.len());
        assert(t.len() == 0);
    }
}

/// The file name for an image: characters that Windows or a URL does not
/// take become `_`; dots and spaces at either end go.
pub fn file_stem(name: &str) -> (r: String)
    ensures
        r@ == stem_of(name@),
{
    let c = chars_of(name);
    let mut m: Vec<char> = Vec::new();
    let mut i: usize = 0;
    while i < c.len()
        invariant
            c@ == name@,
            i <= c@.len(),
            m@ == name_mapped(c@).take(i as int),
        decreases c.len() - i,
    {
        let ch = c[i];
        let bad = control(ch) || ch == '<' || ch == '>' || ch == ':' || ch == '"' || ch == '/'
            || ch == '\\' || ch == '|' || ch == '?' || ch == '*';
        m.push(if bad {
            '_'
        } else {
            ch
        });
        i = i + 1;
        assert(m@ =~= name_mapped(c@).take(i as int));
    }
    assert(m@ =~= name_mapped(name@));
    let mut lo: usize = 0;
    while lo < m.len() && (m[lo] == '.' || m[lo] == ' ')
        invariant
            lo <= m@.len(),
            lead_dots(m@, 0) == lead_dots(m@, lo as int),
        decreases m.len() - lo,
    {
        lo = lo + 1;
    }
    let mut hi: usize = m.len();
    while hi > lo && (m[hi - 1] == '.' || m[hi - 1] == ' ')
        invariant
            lo <= hi <= m@.len(),
            lo == lead_dots(m@, 0),
            trail_dots(m@, m@.len() as int, lo as int) == trail_dots(m@, hi as int, lo as int),
        decreases hi - lo,
    {
        hi = hi - 1;
    }
    if lo == hi {
        return "image".to_string();
    }
    let t = crate::text::sub_chars(&m, lo, hi);
    string_of_chars(&t)
}

/// The `n`-th name tried for an image whose stem is `base`: the stem, then
/// the stem, `sep` and 2, 3 and so on.
pub open spec fn candidate(base: Seq<char>, sep: Seq<char>, n: nat) -> Seq<char> {
    if n <= 1 {
        base
    } else {
        base + sep + decimal(n)
    }
}

/// A name already in `used`, whatever the case of its ASCII letters.
pub open spec fn taken(used: Seq<Seq<char>>, s: Seq<char>) -> bool {
    exists|i: int| 0 <= i < used.len() && eq_ignore_ascii_case(#[trigger] used[i], s)
}

/// The first name from the `n`-th on that is not taken; among the first
/// `used.len() + 1` one never is.
pub open spec fn first_free(used: Seq<Seq<char>>, base: Seq<char>, sep: Seq<char>, n: nat) -> Seq<char>
    decreases used.len() + 2 - n,
{
    if n > used.len() + 1 || !taken(used, candidate(base, sep, n)) {
        candidate(base, sep, n)
    } else {
        first_free(used, base, sep, n + 1)
    }
}

/// The file names of images named `names`: each the first of its
/// candidates that no earlier image took.
pub open spec fn stems_of(names: Seq<Seq<char>>, sep: Seq<char>) -> Seq<Seq<char>>
    decreases names.len(),
{
    if names.len() == 0 {
        Seq::empty()
    } else {
        let prev = stems_of(names.drop_last(), sep);
        prev.push(first_free(prev, stem_of(names.last()), sep, 1))
    }
}

pub proof fn lemma_eq_ignore_case_symmetric(a: Seq<char>, b: Seq<char>)
    requires
        eq_ignore_ascii_case(a, b),
    ensures
        eq_ignore_ascii_case(b, a),
{
    assert forall|i: int| 0 <= i < b.len() implies ascii_lower(#[trigger] b[i]) == ascii_lower(a[i]) by {
        assert(ascii_lower(a[i]) == ascii_lower(b[i]));
    }
}

pub proof fn lemma_eq_ignore_case_transitive(a: Seq<char>, b: Seq<char>, c: Seq<char>)
    requires
        eq_ignore_ascii_case(a, b),
        eq_ignore_ascii_case(b, c),
    ensures
        eq_ignore_ascii_case(a, c),
{
    assert forall|i: int| 0 <= i < a.len() implies ascii_lower(#[trigger] a[i]) == ascii_lower(c[i]) by {
        assert(ascii_lower(a[i]) == ascii_lower(b[i]));
        assert(ascii_lower(b[i]) == ascii_lower(c[i]));
    }
}

/// Two different candidates never differ only in the case of letters.
pub proof fn lemma_candidates_differ(base: Seq<char>, sep: Seq<char>, j: nat, k: nat)
    requires
        1 <= j,
        1 <= k,
        j != k,
    ensures
        !eq_ignore_ascii_case(candidate(base, sep, j), candidate(base, sep, k)),
{
    lemma_digits_len(j, 10);
    lemma_digits_len(k, 10);
    if j >= 2 && k >= 2 && eq_ignore_ascii_case(candidate(base, sep, j), candidate(base, sep, k)) {
        let cj = candidate(base, sep, j);
        let ck = candidate(base, sep, k);
        let p = base.len() + sep.len();
        lemma_decimal_digits(j);
        lemma_decimal_digits(k);
        assert forall|i: int| 0 <= i < decimal(j).len() implies decimal(j)[i] == decimal(k)[i] by {
            assert(cj[p + i] == decimal(j)[i]);
            assert(ck[p + i] == decimal(k)[i]);
            assert(ascii_lower(cj[p + i]) == ascii_lower(ck[p + i]));
        }
        assert(decimal(j) =~= decimal(k));
        lemma_decimal_injective(j, k);
    }
}

/// Of the first `used.len() + 1` candidates one is not taken.
pub proof fn lemma_some_candidate_free(used: Seq<Seq<char>>, base: Seq<char>, sep: Seq<char>)
    ensures
        exists|n: nat| 1 <= n <= used.len() + 1 && !taken(used, #[trigger] candidate(base, sep, n)),
{
    let m = used.len();
    if forall|n: nat| 1 <= n <= m + 1 ==> taken(used, #[trigger] candidate(base, sep, n)) {
        let f = |k: int| choose|i: int| 0 <= i < m && eq_ignore_ascii_case(#[trigger] used[i], candidate(base, sep, k as nat));
        let x = set_int_range(1, m as int + 2);
        lemma_int_range(1, m as int + 2);
        lemma_int_range(0, m as int);
        assert forall|k1: int, k2: int| x.contains(k1) && x.contains(k2) && #[trigger] f(k1) == #[trigger] f(k2) implies k1 == k2 by {
            assert(taken(used, candidate(base, sep, k1 as nat)));
            assert(taken(used, candidate(base, sep, k2 as nat)));
            let i = f(k1);
            if k1 != k2 {
                lemma_eq_ignore_case_symmetric(used[i], candidate(base, sep, k1 as nat));
                lemma_eq_ignore_case_transitive(candidate(base, sep, k1 as nat), used[i], candidate(base, sep, k2 as nat));
                lemma_candidates_differ(base, sep, k1 as nat, k2 as nat);
            }
        }
        lemma_map_size(x, x.map(f), f);
        assert forall|i: int| x.map(f).contains(i) implies set_int_range(0, m as int).contains(i) by {
            let k = choose|k: int| x.contains(k) && f(k) == i;
            assert(taken(used, candidate(base, sep, k as nat)));
        }
        lemma_len_subset(x.map(f), set_int_range(0, m as int));
    }
}

/// The name `first_free` gives is not taken.
pub proof fn lemma_first_free(used: Seq<Seq<char>>, base: Seq<char>, sep: Seq<char>, n: nat, free: nat)
    requires
        1 <= n <= free <= used.len() + 1,
        !taken(used, candidate(base, sep, free)),
    ensures
        !taken(used, first_free(used, base, sep, n)),
    decreases free - n,
{
    if taken(used, candidate(base, sep, n)) {
        lemma_first_free(used, base, sep, n + 1, free);
    }
}

/// Names unique without regard to the case of ASCII letters (Windows and
/// macOS do not tell such names apart): for each own image of a project, in
/// order, its stem, or the stem followed by `sep` and 2, 3, ... if an
/// earlier image has that name already.
pub fn unique_stems(names: &[String], sep: &str) -> (r: Vec<String>)
    requires
        names.len() < usize::MAX - 2,
    ensures
        r@.map_values(|s: String| s@) == stems_of(names@.map_values(|s: String| s@), sep@),
{
    let ghost nv = names@.map_values(|s: String| s@);
    let mut used: Vec<String> = Vec::new();
    let mut i: usize = 0;
    while i < names.len()
        invariant
            i <= names.len(),
            names.len() < usize::MAX - 2,
            nv == names@.map_values(|s: String| s@),
            used@.len() == i,
            used@.map_values(|s: String| s@) == stems_of(nv.subrange(0, i as int), sep@),
        decreases names.len() - i,
    {
        let ghost uv = used@.map_values(|s: String| s@);
        let base = file_stem(names[i].as_str());
        let mut stem = base.clone();
        let mut n: usize = 2;
        proof {
            lemma_some_candidate_free(uv, base@, sep@);
        }
        while taken_by(&used, &stem)
            invariant
                2 <= n <= i + 2,
                i < names.len(),
                names.len() < usize::MAX - 2,
                uv == used@.map_values(|s: String| s@),
                uv.len() == i,
                stem@ == candidate(base@, sep@, (n - 1) as nat),
                first_free(uv, base@, sep@, 1) == first_free(uv, base@, sep@, (n - 1) as nat),
                forall|k: nat| 1 <= k < n - 1 ==> taken(uv, #[trigger] candidate(base@, sep@, k)),
                exists|f: nat| 1 <= f <= uv.len() + 1 && !taken(uv, #[trigger] candidate(base@, sep@, f)),
            decreases i + 2 - n,
        {
            let ghost f = choose|f: nat| 1 <= f <= uv.len() + 1 && !taken(uv, #[trigger] candidate(base@, sep@, f));
            assert(f >= n) by {
                if f < n - 1 {
                    assert(taken(uv, candidate(base@, sep@, f)));
                }
            }
            let mut next = String::new();
            next.append(base.as_str());
            next.append(sep);
            push_decimal(&mut next, n as u64);
            stem = next;
            n = n + 1;
        }
        proof {
            assert(first_free(uv, base@, sep@, (n - 1) as nat) == stem@);
            assert(nv.subrange(0, i as int + 1).drop_last() =~= nv.subrange(0, i as int));
            assert(nv[i as int] == names@[i as int]@);
        }
        let ghost before = used@;
        used.push(stem);
        assert(used@.map_values(|s: String| s@) =~= before.map_values(|s: String| s@).push(used@[i as int]@));
        i = i + 1;
    }
    assert(nv.subrange(0, names.len() as int) =~= nv);
    used
}

/// Whether `s` is in `used`, whatever the case of its ASCII letters.
fn taken_by(used: &Vec<String>, s: &String) -> (b: bool)
    ensures
        b == taken(used@.map_values(|t: String| t@), s@),
{
    let ghost uv = used@.map_values(|t: String| t@);
    let mut i: usize = 0;
    while i < used.len()
        invariant
            i <= used.len(),
            uv == used@.map_values(|t: String| t@),
            forall|j: int| 0 <= j < i ==> !eq_ignore_ascii_case(#[trigger] uv[j], s@),
        decreases used.len() - i,
    {
        if str_eq_ignore_ascii_case(used[i].as_str(), s.as_str()) {
            assert(eq_ignore_ascii_case(uv[i as int], s@));
            return true;
        }
        i = i + 1;
    }
    false
}

/// The names `unique_stems` gives differ from one another, even when the
/// case of ASCII letters is ignored.
pub proof fn law_stems_unique(names: Seq<Seq<char>>, sep: Seq<char>)
    ensures
        stems_of(names, sep).len() == names.len(),
        forall|i: int, j: int|
            0 <= i < j < names.len() ==> !eq_ignore_ascii_case(
                #[trigger] stems_of(names, sep)[i],
                #[trigger] stems_of(names, sep)[j],
            ),
    decreases names.len(),
{
    if names.len() > 0 {
        let prev = stems_of(names.drop_last(), sep);
        law_stems_unique(names.drop_last(), sep);
        let base = stem_of(names.last());
        lemma_some_candidate_free(prev, base, sep);
        let f = choose|f: nat| 1 <= f <= prev.len() + 1 && !taken(prev, #[trigger] candidate(base, sep, f));
        lemma_first_free(prev, base, sep, 1, f);
        let s = stems_of(names, sep);
        assert forall|i: int, j: int| 0 <= i < j < names.len() implies !eq_ignore_ascii_case(
            #[trigger] s[i],
            #[trigger] s[j],
        ) by {
            if j == names.len() - 1 {
                if eq_ignore_ascii_case(s[i], s[j]) {
                    assert(prev[i] == s[i]);
                    assert(taken(prev, first_free(prev, base, sep, 1)));
                }
            } else {
                assert(prev[i] == s[i]);
                assert(prev[j] == s[j]);
            }
        }
    }
}

/// The style of a link as a JSON object: `color`, `width`, `disabled`,
/// `arrows` and `layer`, in the order of their keys.
pub fn link_style_json(st: &LinkStyle) -> (r: Json)
    ensures
        json_view(r) == JsonView::Object(
            members_of_pairs(
                seq![
                    ("color"@, JsonView::Str(st.color@)),
                    ("width"@, JsonView::Number(decimal(st.width as nat))),
                    ("disabled"@, JsonView::Bool(st.disabled)),
                    ("arrows"@, JsonView::Bool(st.arrows)),
                    ("layer"@, JsonView::Number(decimal(st.layer as nat))),
                ],
            ),
        ),
{
    let pairs = vec![
        ("color", Json::Str(st.color.clone())),
        ("width", Json::Number(decimal_text(st.width as u64))),
        ("disabled", Json::Bool(st.disabled)),
        ("arrows", Json::Bool(st.arrows)),
        ("layer", Json::Number(decimal_text(st.layer as u64))),
    ];
    assert(pairs_view(pairs@) =~= seq![
        ("color"@, JsonView::Str(st.color@)),
        ("width"@, JsonView::Number(decimal(st.width as nat))),
        ("disabled"@, JsonView::Bool(st.disabled)),
        ("arrows"@, JsonView::Bool(st.arrows)),
        ("layer"@, JsonView::Number(decimal(st.layer as nat))),
    ]);
    object(pairs)
}

} // verus!
