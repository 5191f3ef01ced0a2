//! The theme store: a base theme name, free color tokens, and a confetti
//! palette kept under a single key as an encoded string array, with a
//! legacy fallback that reads numbered palette keys. Reading yields the
//! configured palette; saving replaces the whole table in one step.

use vstd::prelude::*;
use crate::StoreError;
use crate::dates::Timestamp;
use crate::model::{KvRow, KvRowV};
use crate::rank::{strs_view, str_in};
use crate::seqs::{first_where, lemma_first_where, lemma_first_where_is};
use crate::store::{Store, StoreV, store_inv, kv_ok, kv_view, lemma_inv_same_core};
use crate::text::{lower_seq, trim_seq, trim_str, lower_str, str_eq, eq_ci, push_char};

verus! {

/// The base theme of the user interface.
#[derive(Clone, Copy, Debug, PartialEq, Eq, Structural)]
pub enum BaseTheme {
    Light,
    Dark,
    Custom,
}

/// The stored spelling of a base theme.
pub open spec fn base_theme_label(b: BaseTheme) -> Seq<char> {
    match b {
        BaseTheme::Light => "light"@,
        BaseTheme::Dark => "dark"@,
        BaseTheme::Custom => "custom"@,
    }
}

/// The base theme a stored text names, compared without regard to ASCII
/// case; anything unrecognized falls back to the light theme.
pub open spec fn base_theme_of(s: Seq<char>) -> BaseTheme {
    if lower_seq(s) == "dark"@ {
        BaseTheme::Dark
    } else if lower_seq(s) == "custom"@ {
        BaseTheme::Custom
    } else {
        BaseTheme::Light
    }
}

impl BaseTheme {
    /// Reads a base theme from its stored text, case-insensitively,
    /// falling back to the light theme.
    pub fn from_str_case_insensitive(s: &str) -> (r: BaseTheme)
        ensures
            r == base_theme_of(s@),
    {
        let lowered = lower_str(s);
        proof {
            reveal_strlit("dark");
            reveal_strlit("custom");
        }
        if str_eq(lowered.as_str(), "dark") {
            BaseTheme::Dark
        } else if str_eq(lowered.as_str(), "custom") {
            BaseTheme::Custom
        } else {
            BaseTheme::Light
        }
    }

    /// The stored spelling of this base theme.
    pub fn as_str(&self) -> (r: &'static str)
        ensures
            r@ == base_theme_label(*self),
    {
        match self {
            BaseTheme::Light => "light",
            BaseTheme::Dark => "dark",
            BaseTheme::Custom => "custom",
        }
    }
}

impl Default for BaseTheme {
    /// The light theme is the default.
    fn default() -> (r: Self)
        ensures
            r == BaseTheme::Light,
    {
        BaseTheme::Light
    }
}

/// The theme as handed to and from the user interface: the base theme,
/// the color tokens in stored order, and the configured confetti palette.
pub struct ThemeDTO {
    pub base: BaseTheme,
    pub colors: Vec<(String, String)>,
    pub confetti_colors: Option<Vec<String>>,
}

/// A color trimmed of surrounding whitespace, or nothing where only
/// whitespace remains.
pub open spec fn sanitize_color_spec(s: Seq<char>) -> Option<Seq<char>> {
    if trim_seq(s).len() == 0 {
        None
    } else {
        Some(trim_seq(s))
    }
}

/// Trims a color, dropping it when blank.
pub fn sanitize_color(s: &str) -> (r: Option<String>)
    ensures
        r matches Some(v) ==> sanitize_color_spec(s@) == Some(v@),
        r is None ==> sanitize_color_spec(s@) is None,
{
    let v = trim_str(s);
    if v.as_str().is_empty() {
        None
    } else {
        Some(v)
    }
}

/// Whether the accumulated palette already holds this color under ASCII
/// case folding.
pub open spec fn ci_in(acc: Seq<Seq<char>>, t: Seq<char>) -> bool {
    exists|a: int| 0 <= a < acc.len() && lower_seq(#[trigger] acc[a]) == lower_seq(t)
}

/// A palette clamped front to back: each color trimmed, blanks and
/// case-insensitive repeats dropped, capped at five.
pub open spec fn clamp_rec(acc: Seq<Seq<char>>, items: Seq<Seq<char>>) -> Seq<Seq<char>>
    decreases items.len(),
{
    if items.len() == 0 || acc.len() >= 5 {
        acc
    } else {
        let t = trim_seq(items[0]);
        let acc2 = if t.len() == 0 || ci_in(acc, t) {
            acc
        } else {
            acc.push(t)
        };
        clamp_rec(acc2, items.drop_first())
    }
}

/// Keeps a palette's order while trimming colors, dropping blanks and
/// case-insensitive repeats, and capping the result at five.
#[verifier::loop_isolation(false)]
pub fn clamp_confetti(v: Vec<String>) -> (r: Vec<String>)
    ensures
        strs_view(r@) == clamp_rec(Seq::empty(), strs_view(v@)),
{
    let ghost items = strs_view(v@);
    let n = v.len();
    let mut out: Vec<String> = Vec::new();
    proof {
        assert(strs_view(out@) =~= Seq::<Seq<char>>::empty());
        assert(items.skip(0) =~= items);
    }
    let mut i: usize = 0;
    while i < n && out.len() < 5
        invariant
            n == v@.len(),
            i <= n,
            out@.len() <= 5,
            clamp_rec(strs_view(out@), items.skip(i as int)) == clamp_rec(Seq::empty(), items),
        decreases n - i,
    {
        proof {
            assert(items.skip(i as int)[0] == v@[i as int]@);
            assert(items.skip(i as int).drop_first() =~= items.skip(i as int + 1));
        }
        let t = trim_str(v[i].as_str());
        if !t.as_str().is_empty() {
            let m = out.len();
            let mut dup = false;
            let mut a: usize = 0;
            while a < m
                invariant
                    m == out@.len(),
                    a <= m,
                    dup ==> ci_in(strs_view(out@), t@),
                    !dup ==> forall|b: int|
                        0 <= b < a ==> lower_seq(#[trigger] strs_view(out@)[b]) != lower_seq(t@),
                decreases m - a,
            {
                if eq_ci(out[a].as_str(), t.as_str()) {
                    proof {
                        assert(lower_seq(strs_view(out@)[a as int]) == lower_seq(t@));
                    }
                    dup = true;
                    a = m;
                } else {
                    a = a + 1;
                }
            }
            if !dup {
                let ghost prev = strs_view(out@);
                out.push(t);
                proof {
                    assert(strs_view(out@) =~= prev.push(trim_seq(v@[i as int]@)));
                    assert(!ci_in(prev, trim_seq(v@[i as int]@)));
                }
            } else {
                proof {
                    assert(ci_in(strs_view(out@), trim_seq(v@[i as int]@)));
                }
            }
        }
        i = i + 1;
    }
    proof {
        if out@.len() < 5 {
            assert(items.skip(n as int) =~= Seq::<Seq<char>>::empty());
        }
        assert(clamp_rec(strs_view(out@), items.skip(i as int)) == strs_view(out@));
    }
    out
}

/// What an encoded string array spells: for text that parses as an array,
/// one entry per item, the text of each string item and a marker for any
/// other item; nothing for any other text. A function of the text alone.
pub uninterp spec fn json_string_items(s: Seq<char>) -> Option<Seq<Option<Seq<char>>>>;

/// Relies on serde_json::from_str and serde_json::Value: parses the text,
/// and hands back the array's items with strings kept and other values
/// marked, or nothing where the text is not a JSON array.
#[verifier::external_body]
fn parse_json_string_array(s: &str) -> (r: Option<Vec<Option<String>>>)
    ensures
        r is Some <==> json_string_items(s@) is Some,
        r matches Some(v) ==> {
            let items = json_string_items(s@)->0;
            &&& v@.len() == items.len()
            &&& forall|k: int|
                0 <= k < v@.len() ==> ((#[trigger] v@[k]) matches Some(x) ==> items[k] == Some(x@))
                    && (v@[k] is None ==> items[k] is None)
        },
{
    match serde_json::from_str::<serde_json::Value>(s) {
        Ok(serde_json::Value::Array(arr)) => Some(
            arr.into_iter().map(
                |v|
                    match v {
                        serde_json::Value::String(x) => Some(x),
                        _ => None,
                    },
            ).collect(),
        ),
        _ => None,
    }
}

/// What encoding a string array yields; a function of the strings alone.
pub uninterp spec fn json_of_strings(items: Seq<Seq<char>>) -> Seq<char>;

/// Relies on serde_json::to_string, which cannot fail for a vector of
/// strings: no map keys are involved and string serialization is total.
#[verifier::external_body]
fn json_of_string_array(v: &Vec<String>) -> (r: String)
    ensures
        r@ == json_of_strings(strs_view(v@)),
{
    match serde_json::to_string(v) {
        Ok(s) => s,
        Err(_) => String::new(),
    }
}

/// The string items of a parsed array, markers dropped, in order.
pub open spec fn somes_of(items: Seq<Option<Seq<char>>>) -> Seq<Seq<char>>
    decreases items.len(),
{
    if items.len() == 0 {
        Seq::empty()
    } else {
        somes_of(items.drop_last()) + (match items.last() {
            Some(x) => seq![x],
            None => Seq::empty(),
        })
    }
}

/// The predicate of a theme row keyed `confetti` under case folding.
pub open spec fn confetti_key_row() -> spec_fn(KvRowV) -> bool {
    |r: KvRowV| lower_seq(r.key) == lower_seq("confetti"@)
}

/// A lowercased key with every leading `confetti` prefix removed.
pub open spec fn strip_confetti(s: Seq<char>) -> Seq<char>
    decreases s.len(),
{
    if s.len() >= 8 && s.take(8) == "confetti"@ {
        strip_confetti(s.skip(8))
    } else {
        s
    }
}

/// The value a digit string spells.
pub open spec fn digits_val(s: Seq<char>) -> int
    decreases s.len(),
{
    if s.len() == 0 {
        0
    } else {
        10 * digits_val(s.drop_last()) + crate::dates::digit_val(s.last())
    }
}

/// A numeric suffix: all digits, at least one, and within the unsigned
/// 64-bit range.
pub open spec fn parse_u64_digits(s: Seq<char>) -> Option<u64> {
    if s.len() > 0 && (forall|k: int| 0 <= k < s.len() ==> crate::dates::is_digit(#[trigger] s[k]))
        && digits_val(s) < 0x10000000000000000 {
        Some(digits_val(s) as u64)
    } else {
        None
    }
}

/// The legacy palette rows: position-stamped triples of numeric suffix,
/// row position, and value, for rows whose lowercased key starts with
/// `confetti` followed by a number.
pub open spec fn legacy_pairs(rows: Seq<KvRowV>) -> Seq<(u64, int, Seq<char>)>
    decreases rows.len(),
{
    if rows.len() == 0 {
        Seq::empty()
    } else {
        legacy_pairs(rows.drop_last()) + ({
            let kl = lower_seq(rows.last().key);
            if kl.len() >= 8 && kl.take(8) == "confetti"@ && parse_u64_digits(
                strip_confetti(kl),
            ) is Some {
                seq![
                    (
                        parse_u64_digits(strip_confetti(kl))->0,
                        rows.len() - 1,
                        rows.last().value,
                    ),
                ]
            } else {
                Seq::empty()
            }
        })
    }
}

/// Triple order: by numeric suffix, then by row position.
pub open spec fn pair_before(a: (u64, int, Seq<char>), b: (u64, int, Seq<char>)) -> bool {
    a.0 < b.0 || (a.0 == b.0 && a.1 < b.1)
}

/// The first position of the least triple.
pub open spec fn min_pair_idx(ps: Seq<(u64, int, Seq<char>)>) -> int
    decreases ps.len(),
{
    if ps.len() <= 1 {
        0
    } else {
        let m = min_pair_idx(ps.drop_last());
        if pair_before(ps.last(), ps[m]) {
            ps.len() - 1
        } else {
            m
        }
    }
}

/// The triples in ascending suffix order, positions breaking ties.
pub open spec fn sel_sorted(ps: Seq<(u64, int, Seq<char>)>) -> Seq<(u64, int, Seq<char>)>
    decreases ps.len(),
{
    if ps.len() == 0 {
        Seq::empty()
    } else {
        let m = if 0 <= min_pair_idx(ps) < ps.len() {
            min_pair_idx(ps)
        } else {
            0int
        };
        seq![ps[m]] + sel_sorted(ps.remove(m))
    }
}

/// The trimmed, non-blank values of a triple list, in order.
pub open spec fn sanitized_values(ps: Seq<(u64, int, Seq<char>)>) -> Seq<Seq<char>>
    decreases ps.len(),
{
    if ps.len() == 0 {
        Seq::empty()
    } else {
        sanitized_values(ps.drop_last()) + (match sanitize_color_spec(ps.last().2) {
            Some(t) => seq![t],
            None => Seq::empty(),
        })
    }
}

/// The palette the legacy numbered keys spell.
pub open spec fn legacy_confetti(rows: Seq<KvRowV>) -> Seq<Seq<char>> {
    clamp_rec(Seq::empty(), sanitized_values(sel_sorted(legacy_pairs(rows))))
}

/// The configured palette of the theme table: the encoded array under the
/// `confetti` key where one parses, the legacy numbered keys otherwise.
pub open spec fn confetti_spec(rows: Seq<KvRowV>) -> Seq<Seq<char>> {
    match first_where(rows, confetti_key_row()) {
        Some(i) => match json_string_items(rows[i].value) {
            Some(items) => clamp_rec(Seq::empty(), somes_of(items)),
            None => legacy_confetti(rows),
        },
        None => legacy_confetti(rows),
    }
}

/// Whether the lowercased text starts with `confetti`.
#[verifier::loop_isolation(false)]
fn starts_with_confetti(s: &str) -> (r: bool)
    ensures
        r == (s@.len() >= 8 && s@.take(8) == "confetti"@),
{
    proof {
        reveal_strlit("confetti");
    }
    if s.unicode_len() < 8 {
        return false;
    }
    let r = s.get_char(0) == 'c' && s.get_char(1) == 'o' && s.get_char(2) == 'n' && s.get_char(3)
        == 'f' && s.get_char(4) == 'e' && s.get_char(5) == 't' && s.get_char(6) == 't'
        && s.get_char(7) == 'i';
    proof {
        if r {
            assert(s@.take(8) =~= "confetti"@);
        } else {
            if s@.take(8) == "confetti"@ {
                assert(s@[0] == "confetti"@[0]);
                assert(s@[1] == "confetti"@[1]);
                assert(s@[2] == "confetti"@[2]);
                assert(s@[3] == "confetti"@[3]);
                assert(s@[4] == "confetti"@[4]);
                assert(s@[5] == "confetti"@[5]);
                assert(s@[6] == "confetti"@[6]);
                assert(s@[7] == "confetti"@[7]);
                assert(false);
            }
        }
    }
    r
}

/// The numeric suffix after the repeated `confetti` prefix of a
/// lowercased key, if it is a number.
#[verifier::loop_isolation(false)]
fn parse_confetti_suffix(s: &str) -> (r: Option<u64>)
    ensures
        r == parse_u64_digits(strip_confetti(s@)),
{
    let n = s.unicode_len();
    let mut start: usize = 0;
    proof {
        assert(s@.skip(0) =~= s@);
    }
    loop
        invariant
            start <= n,
            n == s@.len(),
            strip_confetti(s@) == strip_confetti(s@.skip(start as int)),
        decreases n - start,
    {
        proof {
            reveal_strlit("confetti");
        }
        if n - start >= 8 && s.get_char(start) == 'c' && s.get_char(start + 1) == 'o' && s.get_char(
            start + 2,
        ) == 'n' && s.get_char(start + 3) == 'f' && s.get_char(start + 4) == 'e' && s.get_char(
            start + 5,
        ) == 't' && s.get_char(start + 6) == 't' && s.get_char(start + 7) == 'i' {
            proof {
                let t = s@.skip(start as int);
                assert(t.take(8) =~= "confetti"@);
                assert(t.skip(8) =~= s@.skip(start as int + 8));
            }
            start = start + 8;
        } else {
            proof {
                let t = s@.skip(start as int);
                if t.len() >= 8 {
                    assert(forall|k: int| 0 <= k < 8 ==> t.take(8)[k] == s@[start + k]);
                    if t.take(8) == "confetti"@ {
                        assert(s@[start as int] == "confetti"@[0]);
                        assert(s@[start + 1] == "confetti"@[1]);
                        assert(s@[start + 2] == "confetti"@[2]);
                        assert(s@[start + 3] == "confetti"@[3]);
                        assert(s@[start + 4] == "confetti"@[4]);
                        assert(s@[start + 5] == "confetti"@[5]);
                        assert(s@[start + 6] == "confetti"@[6]);
                        assert(s@[start + 7] == "confetti"@[7]);
                        assert(false);
                    }
                }
                assert(strip_confetti(t) == t);
            }
            break ;
        }
    }
    let ghost rest = s@.skip(start as int);
    if start == n {
        proof {
            assert(rest.len() == 0);
        }
        return None;
    }
    let mut acc: u64 = 0;
    let mut i: usize = start;
    while i < n
        invariant
            start <= i <= n,
            start < n,
            forall|k: int| 0 <= k < i - start ==> crate::dates::is_digit(#[trigger] rest[k]),
            acc as int == digits_val(rest.take(i - start)),
        decreases n - i,
    {
        proof {
            assert(rest.take(i - start + 1).drop_last() =~= rest.take(i - start));
            assert(rest.take(i - start + 1).last() == s@[i as int]);
        }
        let c = s.get_char(i);
        if c < '0' || c > '9' {
            proof {
                assert(!crate::dates::is_digit(rest[i - start]));
            }
            return None;
        }
        let d = (c as u32) as u64 - 48;
        if acc > (u64::MAX - d) / 10 {
            proof {
                assert(digits_val(rest.take(i - start + 1)) == 10 * (acc as int) + d);
                assert(10 * (acc as int) + d > u64::MAX);
                if forall|k: int| 0 <= k < rest.len() ==> crate::dates::is_digit(
                    #[trigger] rest[k],
                ) {
                    lemma_digits_monotone(rest, i - start + 1);
                    assert(digits_val(rest) > u64::MAX);
                }
            }
            return None;
        }
        acc = acc * 10 + d;
        i = i + 1;
    }
    proof {
        assert(rest.take(n - start) =~= rest);
    }
    Some(acc)
}

/// A digit string's value only grows with more digits.
proof fn lemma_digits_monotone(s: Seq<char>, i: int)
    requires
        0 <= i <= s.len(),
        forall|k: int| 0 <= k < s.len() ==> crate::dates::is_digit(#[trigger] s[k]),
    ensures
        digits_val(s) >= digits_val(s.take(i)),
        digits_val(s) >= 0,
    decreases s.len() - i,
{
    if i < s.len() {
        lemma_digits_monotone(s, i + 1);
        assert(s.take(i + 1).drop_last() =~= s.take(i));
        lemma_digits_nonneg(s.take(i));
    } else {
        assert(s.take(i) =~= s);
        lemma_digits_nonneg(s);
    }
}

proof fn lemma_digits_nonneg(s: Seq<char>)
    requires
        forall|k: int| 0 <= k < s.len() ==> crate::dates::is_digit(#[trigger] s[k]),
    ensures
        digits_val(s) >= 0,
    decreases s.len(),
{
    if s.len() > 0 {
        lemma_digits_nonneg(s.drop_last());
    }
}

/// The configured confetti palette of the theme rows: the encoded array
/// under the `confetti` key, or the legacy numbered keys where none
/// parses.
#[verifier::loop_isolation(false)]
#[verifier::rlimit(100)]
fn parse_confetti_from_rows(rows: &Vec<KvRow>) -> (r: Vec<String>)
    ensures
        strs_view(r@) == confetti_spec(kv_view(rows@)),
{
    let ghost rv = kv_view(rows@);
    let n = rows.len();
    let mut ci: Option<usize> = None;
    let mut i: usize = 0;
    while i < n
        invariant
            n == rows@.len(),
            i <= n,
            ci is None ==> forall|k: int| 0 <= k < i ==> !confetti_key_row()(rv[k]),
            ci matches Some(x) ==> first_where(rv, confetti_key_row()) == Some(x as int),
        decreases n - i,
    {
        if ci.is_none() && eq_ci(rows[i].key.as_str(), "confetti") {
            proof {
                assert(confetti_key_row()(rv[i as int]));
                lemma_first_where_is(rv, confetti_key_row(), i as int);
            }
            ci = Some(i);
        }
        i = i + 1;
    }
    proof {
        if ci is None {
            lemma_first_where(rv, confetti_key_row());
        }
    }
    match ci {
        Some(x) => {
            proof {
                lemma_first_where(rv, confetti_key_row());
                assert(rv[x as int].value == rows@[x as int].value@);
            }
            match parse_json_string_array(rows[x].value.as_str()) {
                Some(items) => {
                    let ghost spec_items = json_string_items(rv[x as int].value)->0;
                    let m = items.len();
                    let mut vals: Vec<String> = Vec::new();
                    proof {
                        assert(strs_view(vals@) =~= somes_of(spec_items.take(0)));
                    }
                    let mut j: usize = 0;
                    while j < m
                        invariant
                            m == items@.len(),
                            m == spec_items.len(),
                            forall|k: int|
                                0 <= k < m ==> ((#[trigger] items@[k]) matches Some(y)
                                    ==> spec_items[k] == Some(y@)) && (items@[k] is None
                                    ==> spec_items[k] is None),
                            j <= m,
                            strs_view(vals@) =~= somes_of(spec_items.take(j as int)),
                        decreases m - j,
                    {
                        proof {
                            assert(spec_items.take(j as int + 1).drop_last() =~= spec_items.take(
                                j as int,
                            ));
                            assert(spec_items.take(j as int + 1).last() == spec_items[j as int]);
                        }
                        match &items[j] {
                            Some(y) => {
                                vals.push(y.clone());
                                proof {
                                    assert(strs_view(vals@) =~= somes_of(
                                        spec_items.take(j as int + 1),
                                    ));
                                }
                            },
                            None => {
                                proof {
                                    assert(strs_view(vals@) =~= somes_of(
                                        spec_items.take(j as int + 1),
                                    ));
                                }
                            },
                        }
                        j = j + 1;
                    }
                    proof {
                        assert(spec_items.take(m as int) =~= spec_items);
                    }
                    clamp_confetti(vals)
                },
                None => legacy_confetti_exec(rows),
            }
        },
        None => legacy_confetti_exec(rows),
    }
}

/// The legacy numbered-key palette of the theme rows.
#[verifier::loop_isolation(false)]
#[verifier::rlimit(100)]
fn legacy_confetti_exec(rows: &Vec<KvRow>) -> (r: Vec<String>)
    ensures
        strs_view(r@) == legacy_confetti(kv_view(rows@)),
{
    let ghost rv = kv_view(rows@);
    let n = rows.len();
    let mut work: Vec<(u64, usize, String)> = Vec::new();
    let mut i: usize = 0;
    while i < n
        invariant
            n == rows@.len(),
            i <= n,
            ({
                let ps = legacy_pairs(rv.take(i as int));
                &&& work@.len() == ps.len()
                &&& forall|k: int|
                    0 <= k < ps.len() ==> (#[trigger] work@[k]).0 == ps[k].0 && work@[k].1 as int
                        == ps[k].1 && work@[k].2@ == ps[k].2
            }),
        decreases n - i,
    {
        proof {
            assert(rv.take(i as int + 1).drop_last() =~= rv.take(i as int));
            assert(rv.take(i as int + 1).last() == rv[i as int]);
        }
        let kl = lower_str(rows[i].key.as_str());
        if starts_with_confetti(kl.as_str()) {
            match parse_confetti_suffix(kl.as_str()) {
                Some(sv) => {
                    work.push((sv, i, rows[i].value.clone()));
                },
                None => {
                },
            }
        }
        i = i + 1;
    }
    proof {
        assert(rv.take(n as int) =~= rv);
    }
    let ghost ps = legacy_pairs(rv);
    let ghost remaining0 = ps;
    let mut remaining_ghost: Ghost<Seq<(u64, int, Seq<char>)>> = Ghost(ps);
    let mut ordered: Vec<String> = Vec::new();
    proof {
        lemma_sel_sorted_len(ps);
    }
    while work.len() > 0
        invariant
            ({
                let remaining = remaining_ghost@;
                &&& work@.len() == remaining.len()
                &&& forall|k: int|
                    0 <= k < remaining.len() ==> (#[trigger] work@[k]).0 == remaining[k].0
                        && work@[k].1 as int == remaining[k].1 && work@[k].2@ == remaining[k].2
                &&& ordered@.len() + remaining.len() == ps.len()
                &&& sel_sorted(ps).skip(ordered@.len() as int) =~= sel_sorted(remaining)
                &&& forall|l: int|
                    0 <= l < ordered@.len() ==> (#[trigger] ordered@[l])@ == sel_sorted(ps)[l].2
            }),
        decreases work@.len(),
    {
        let ghost remaining = remaining_ghost@;
        let m = work.len();
        let mut best: usize = 0;
        let mut k: usize = 1;
        while k < m
            invariant
                m == work@.len(),
                best < k <= m,
                forall|q: int|
                    0 <= q < k ==> !pair_before(
                        (remaining_ghost@[q].0, remaining_ghost@[q].1, remaining_ghost@[q].2),
                        remaining_ghost@[best as int],
                    ),
                forall|q: int|
                    0 <= q < best ==> pair_before(
                        remaining_ghost@[best as int],
                        remaining_ghost@[q],
                    ),
            decreases m - k,
        {
            if work[k].0 < work[best].0 || (work[k].0 == work[best].0 && (work[k].1
                < work[best].1)) {
                proof {
                    assert(pair_before(remaining_ghost@[k as int], remaining_ghost@[best as int]));
                }
                best = k;
            } else {
                proof {
                    assert(!pair_before(remaining_ghost@[k as int], remaining_ghost@[best as int]));
                }
            }
            k = k + 1;
        }
        proof {
            lemma_min_pair_char(remaining, best as int);
            lemma_sel_sorted_len(remaining);
            lemma_sel_sorted_len(remaining.remove(best as int));
        }
        let ghost taken0 = ordered@.len() as int;
        let picked = work.remove(best);
        proof {
            assert(picked.2@ == remaining[best as int].2);
        }
        ordered.push(picked.2);
        proof {
            let remaining2 = remaining.remove(best as int);
            lemma_sel_sorted_len(remaining2);
            assert(min_pair_idx(remaining) == best as int);
            assert(sel_sorted(remaining) =~= seq![remaining[best as int]] + sel_sorted(
                remaining2,
            ));
            assert(sel_sorted(remaining)[0] == remaining[best as int]);
            assert(sel_sorted(ps).skip(taken0)[0] == sel_sorted(ps)[taken0]);
            assert(sel_sorted(ps)[taken0] == remaining[best as int]);
            assert(ordered@[taken0]@ == remaining[best as int].2);
            assert forall|l: int| 0 <= l < sel_sorted(remaining2).len() implies sel_sorted(
                ps,
            ).skip(taken0 + 1)[l] == sel_sorted(remaining2)[l] by {
                assert(sel_sorted(ps).skip(taken0)[l + 1] == sel_sorted(remaining)[l + 1]);
            }
            assert(sel_sorted(ps).skip(taken0 + 1) =~= sel_sorted(remaining2));
            assert(forall|q: int|
                0 <= q < remaining2.len() ==> (#[trigger] work@[q]).0 == remaining2[q].0
                    && work@[q].1 as int == remaining2[q].1 && work@[q].2@ == remaining2[q].2);
        }
        remaining_ghost = Ghost(remaining_ghost@.remove(best as int));
    }
    proof {
        assert(sel_sorted(ps).len() == ps.len());
        assert(ordered@.len() == ps.len());
    }
    let ghost sorted = sel_sorted(ps);
    let on = ordered.len();
    let mut vals: Vec<String> = Vec::new();
    let mut j: usize = 0;
    while j < on
        invariant
            on == ordered@.len(),
            on == sorted.len(),
            forall|l: int| 0 <= l < on ==> (#[trigger] ordered@[l])@ == sorted[l].2,
            j <= on,
            strs_view(vals@) =~= sanitized_values(sorted.take(j as int)),
        decreases on - j,
    {
        proof {
            assert(sorted.take(j as int + 1).drop_last() =~= sorted.take(j as int));
            assert(sorted.take(j as int + 1).last() == sorted[j as int]);
        }
        match sanitize_color(ordered[j].as_str()) {
            Some(t) => {
                vals.push(t);
                proof {
                    assert(strs_view(vals@) =~= sanitized_values(sorted.take(j as int + 1)));
                }
            },
            None => {
                proof {
                    assert(strs_view(vals@) =~= sanitized_values(sorted.take(j as int + 1)));
                }
            },
        }
        j = j + 1;
    }
    proof {
        assert(sorted.take(on as int) =~= sorted);
    }
    clamp_confetti(vals)
}

/// The predicate of a theme row keyed `base` under case folding.
pub open spec fn base_key_row() -> spec_fn(KvRowV) -> bool {
    |r: KvRowV| lower_seq(r.key) == lower_seq("base"@)
}

/// The stored base text: the first `base` row's value, or `light`.
pub open spec fn base_of_rows(rows: Seq<KvRowV>) -> Seq<char> {
    match first_where(rows, base_key_row()) {
        Some(i) => rows[i].value,
        None => "light"@,
    }
}

/// The color tokens of the table: every row whose lowercased key is
/// neither `base` nor starts with `confetti`, in row order.
pub open spec fn color_rows_of(rows: Seq<KvRowV>) -> Seq<(Seq<char>, Seq<char>)>
    decreases rows.len(),
{
    if rows.len() == 0 {
        Seq::empty()
    } else {
        color_rows_of(rows.drop_last()) + ({
            let kl = lower_seq(rows.last().key);
            if kl == "base"@ || (kl.len() >= 8 && kl.take(8) == "confetti"@) {
                Seq::empty()
            } else {
                seq![(rows.last().key, rows.last().value)]
            }
        })
    }
}

/// The colorful default palette offered for the custom theme.
pub open spec fn default_confetti() -> Seq<Seq<char>> {
    seq!["#ef4444"@, "#22c55e"@, "#3b82f6"@, "#eab308"@, "#a855f7"@]
}

/// What the palette editor shows: the configured palette, the colorful
/// default for an unconfigured custom theme, and nothing otherwise.
pub open spec fn editor_confetti(rows: Seq<KvRowV>) -> Seq<Seq<char>> {
    if confetti_spec(rows).len() > 0 {
        confetti_spec(rows)
    } else if base_theme_of(base_of_rows(rows)) == BaseTheme::Custom {
        default_confetti()
    } else {
        Seq::empty()
    }
}

/// The effective palette fed to the renderer: the editor's palette when
/// it has colors, else black for the light theme, white for the dark
/// theme, and the colorful default for the custom theme; black where no
/// theme is stored at all.
pub open spec fn palette_spec(rows: Seq<KvRowV>) -> Seq<Seq<char>> {
    if rows.len() == 0 {
        seq!["#000000"@]
    } else if editor_confetti(rows).len() > 0 {
        editor_confetti(rows)
    } else {
        match base_theme_of(base_of_rows(rows)) {
            BaseTheme::Light => seq!["#000000"@],
            BaseTheme::Dark => seq!["#ffffff"@],
            BaseTheme::Custom => default_confetti(),
        }
    }
}

/// The key-and-value texts of a list of color pairs.
pub open spec fn pairs_view(v: Seq<(String, String)>) -> Seq<(Seq<char>, Seq<char>)> {
    Seq::new(v.len(), |i: int| (v[i].0@, v[i].1@))
}

/// Color keys fit for saving: pairwise distinct and touching neither the
/// `base` nor the `confetti` key.
pub open spec fn valid_theme_keys(v: Seq<(String, String)>) -> bool {
    &&& forall|a: int, b: int| 0 <= a < b < v.len() ==> (#[trigger] v[a]).0@ != (
    #[trigger] v[b]).0@
    &&& forall|a: int| 0 <= a < v.len() ==> (#[trigger] v[a]).0@ != "base"@ && v[a].0@
        != "confetti"@
}

/// The trimmed, non-blank colors of a palette, in order.
pub open spec fn sanitized_strs(items: Seq<Seq<char>>) -> Seq<Seq<char>>
    decreases items.len(),
{
    if items.len() == 0 {
        Seq::empty()
    } else {
        sanitized_strs(items.drop_last()) + (match sanitize_color_spec(items.last()) {
            Some(t) => seq![t],
            None => Seq::empty(),
        })
    }
}

/// The rows a theme save writes: the base row, the color tokens, and the
/// cleaned palette under the `confetti` key when it keeps any color.
pub open spec fn theme_save_rows(
    base: BaseTheme,
    colors: Seq<(String, String)>,
    confetti: Option<Seq<Seq<char>>>,
    now: Timestamp,
) -> Seq<KvRowV> {
    seq![KvRowV { key: "base"@, value: base_theme_label(base), updated_at: now }] + Seq::new(
        colors.len(),
        |i: int| KvRowV { key: colors[i].0@, value: colors[i].1@, updated_at: now },
    ) + (match confetti {
        Some(items) => {
            let cleaned = clamp_rec(Seq::empty(), sanitized_strs(items));
            if cleaned.len() > 0 {
                seq![
                    KvRowV {
                        key: "confetti"@,
                        value: json_of_strings(cleaned),
                        updated_at: now,
                    },
                ]
            } else {
                Seq::empty()
            }
        },
        None => Seq::empty(),
    })
}

impl Store {
    /// The stored theme: its base, its color tokens in stored order, and
    /// the palette the editor shows; nothing where no theme row exists.
    #[verifier::loop_isolation(false)]
    #[verifier::rlimit(100)]
    pub fn get_theme_colors(&self) -> (r: Option<ThemeDTO>)
        requires
            store_inv(self@),
        ensures
            self@.theme.len() == 0 <==> r is None,
            r matches Some(dto) ==> {
                &&& dto.base == base_theme_of(base_of_rows(self@.theme))
                &&& pairs_view(dto.colors@) == color_rows_of(self@.theme)
                &&& dto.confetti_colors matches Some(cc) && strs_view(cc@) == editor_confetti(
                    self@.theme,
                )
            },
    {
        if self.theme.len() == 0 {
            return None;
        }
        let ghost rows = self@.theme;
        let n = self.theme.len();
        let mut base_val: Option<String> = None;
        let mut i: usize = 0;
        while i < n
            invariant
                n == self.theme@.len(),
                i <= n,
                base_val is None ==> forall|k: int| 0 <= k < i ==> !base_key_row()(rows[k]),
                base_val matches Some(v) ==> first_where(rows, base_key_row()) matches Some(j)
                    && v@ == rows[j].value,
            decreases n - i,
        {
            if base_val.is_none() && eq_ci(self.theme[i].key.as_str(), "base") {
                proof {
                    assert(base_key_row()(rows[i as int]));
                    lemma_first_where_is(rows, base_key_row(), i as int);
                }
                base_val = Some(self.theme[i].value.clone());
            }
            i = i + 1;
        }
        let base = match &base_val {
            Some(v) => BaseTheme::from_str_case_insensitive(v.as_str()),
            None => {
                proof {
                    lemma_first_where(rows, base_key_row());
                    reveal_strlit("light");
                    assert(lower_seq("light"@) =~= "light"@);
                    assert(lower_seq("light"@) != "dark"@ && lower_seq("light"@) != "custom"@)
                        by {
                        reveal_strlit("dark");
                        reveal_strlit("custom");
                    }
                }
                BaseTheme::Light
            },
        };
        let mut colors: Vec<(String, String)> = Vec::new();
        let mut k: usize = 0;
        while k < n
            invariant
                n == self.theme@.len(),
                k <= n,
                pairs_view(colors@) =~= color_rows_of(rows.take(k as int)),
            decreases n - k,
        {
            proof {
                assert(rows.take(k as int + 1).drop_last() =~= rows.take(k as int));
                assert(rows.take(k as int + 1).last() == rows[k as int]);
            }
            let kl = lower_str(self.theme[k].key.as_str());
            proof {
                reveal_strlit("base");
            }
            let skip_row = str_eq(kl.as_str(), "base") || starts_with_confetti(kl.as_str());
            if !skip_row {
                colors.push((self.theme[k].key.clone(), self.theme[k].value.clone()));
            }
            proof {
                assert(pairs_view(colors@) =~= color_rows_of(rows.take(k as int + 1)));
            }
            k = k + 1;
        }
        proof {
            assert(rows.take(n as int) =~= rows);
        }
        let configured = parse_confetti_from_rows(&self.theme);
        let confetti: Vec<String> = if configured.len() > 0 {
            configured
        } else {
            match base {
                BaseTheme::Custom => default_confetti_exec(),
                _ => {
                    let empty_list: Vec<String> = Vec::new();
                    proof {
                        assert(strs_view(empty_list@) =~= Seq::<Seq<char>>::empty());
                    }
                    empty_list
                },
            }
        };
        Some(ThemeDTO { base, colors, confetti_colors: Some(confetti) })
    }

    /// Replaces the whole theme table with the given base, color tokens,
    /// and palette, in one step; color keys that repeat or touch the
    /// reserved keys are a uniqueness violation and nothing changes.
    #[verifier::loop_isolation(false)]
    #[verifier::rlimit(100)]
    pub fn save_theme_colors(&mut self, payload: ThemeDTO, now: Timestamp) -> (r: Result<
        (),
        StoreError,
    >)
        requires
            store_inv(old(self)@),
        ensures
            store_inv(final(self)@),
            !valid_theme_keys(payload.colors@) ==> r == Err::<(), _>(
                StoreError::ConstraintViolation,
            ) && final(self)@ == old(self)@,
            valid_theme_keys(payload.colors@) ==> r == Ok::<_, StoreError>(()) && final(self)@
                == (StoreV {
                theme: theme_save_rows(
                    payload.base,
                    payload.colors@,
                    match payload.confetti_colors {
                        Some(cc) => Some(strs_view(cc@)),
                        None => None,
                    },
                    now,
                ),
                ..old(self)@
            }),
    {
        let ghost prior = self@;
        let m = payload.colors.len();
        let mut a: usize = 0;
        while a < m
            invariant
                m == payload.colors@.len(),
                a <= m,
                forall|x: int, y: int|
                    0 <= x < y < m && y < a ==> (#[trigger] payload.colors@[x]).0@ != (
                    #[trigger] payload.colors@[y]).0@,
                forall|x: int|
                    0 <= x < a ==> (#[trigger] payload.colors@[x]).0@ != "base"@
                        && payload.colors@[x].0@ != "confetti"@,
            decreases m - a,
        {
            proof {
                reveal_strlit("base");
                reveal_strlit("confetti");
            }
            if str_eq(payload.colors[a].0.as_str(), "base") || str_eq(
                payload.colors[a].0.as_str(),
                "confetti",
            ) {
                return Err(StoreError::ConstraintViolation);
            }
            let mut b: usize = 0;
            while b < a
                invariant
                    a < m,
                    m == payload.colors@.len(),
                    b <= a,
                    forall|x: int|
                        0 <= x < b ==> (#[trigger] payload.colors@[x]).0@ != payload.colors@[
                            a as int
                        ].0@,
                decreases a - b,
            {
                if str_eq(payload.colors[b].0.as_str(), payload.colors[a].0.as_str()) {
                    return Err(StoreError::ConstraintViolation);
                }
                b = b + 1;
            }
            a = a + 1;
        }
        proof {
            assert(valid_theme_keys(payload.colors@));
        }
        let ghost confetti_in: Option<Seq<Seq<char>>> = match payload.confetti_colors {
            Some(ref cc) => Some(strs_view(cc@)),
            None => None,
        };
        let mut rows: Vec<KvRow> = Vec::new();
        rows.push(KvRow { key: "base".to_owned(), value: payload.base.as_str().to_owned(), updated_at: now });
        let mut c: usize = 0;
        while c < m
            invariant
                m == payload.colors@.len(),
                c <= m,
                rows@.len() == c + 1,
                kv_view(rows@)[0] == (KvRowV { key: "base"@, value: base_theme_label(payload.base), updated_at: now }),
                forall|x: int|
                    0 <= x < c ==> kv_view(rows@)[x + 1] == (KvRowV {
                        key: payload.colors@[x].0@,
                        value: payload.colors@[x].1@,
                        updated_at: now,
                    }),
            decreases m - c,
        {
            rows.push(
                KvRow {
                    key: payload.colors[c].0.clone(),
                    value: payload.colors[c].1.clone(),
                    updated_at: now,
                },
            );
            c = c + 1;
        }
        match payload.confetti_colors {
            Some(cc) => {
                let ghost cc_items = strs_view(cc@);
                let cn = cc.len();
                let mut vals: Vec<String> = Vec::new();
                proof {
                    assert(strs_view(vals@) =~= sanitized_strs(cc_items.take(0)));
                }
                let mut d: usize = 0;
                while d < cn
                    invariant
                        cn == cc@.len(),
                        d <= cn,
                        strs_view(vals@) =~= sanitized_strs(cc_items.take(d as int)),
                    decreases cn - d,
                {
                    proof {
                        assert(cc_items.take(d as int + 1).drop_last() =~= cc_items.take(
                            d as int,
                        ));
                        assert(cc_items.take(d as int + 1).last() == cc@[d as int]@);
                    }
                    match sanitize_color(cc[d].as_str()) {
                        Some(t) => {
                            vals.push(t);
                            proof {
                                assert(strs_view(vals@) =~= sanitized_strs(
                                    cc_items.take(d as int + 1),
                                ));
                            }
                        },
                        None => {
                            proof {
                                assert(strs_view(vals@) =~= sanitized_strs(
                                    cc_items.take(d as int + 1),
                                ));
                            }
                        },
                    }
                    d = d + 1;
                }
                proof {
                    assert(cc_items.take(cn as int) =~= cc_items);
                }
                let cleaned = clamp_confetti(vals);
                if cleaned.len() > 0 {
                    let json = json_of_string_array(&cleaned);
                    rows.push(KvRow { key: "confetti".to_owned(), value: json, updated_at: now });
                }
            },
            None => {
            },
        }
        self.theme = rows;
        proof {
            reveal_strlit("base");
            reveal_strlit("confetti");
            let expect = theme_save_rows(payload.base, payload.colors@, confetti_in, now);
            assert(self@.theme =~= expect);
            assert forall|x: int, y: int| 0 <= x < y < self@.theme.len() implies (
            #[trigger] self@.theme[x]).key != (#[trigger] self@.theme[y]).key by {
                assert("base"@.len() == 4 && "confetti"@.len() == 8);
            }
            assert(kv_ok(self@.theme));
            assert(self@.orders =~= prior.orders);
            assert(self@.companies =~= prior.companies);
            assert(self@.opened =~= prior.opened);
            assert(self@.settings =~= prior.settings);
            lemma_inv_same_core(prior, self@);
        }
        Ok(())
    }

    /// The effective confetti palette for the renderer.
    #[verifier::loop_isolation(false)]
    pub fn get_confetti_palette(&self) -> (r: Vec<String>)
        requires
            store_inv(self@),
        ensures
            strs_view(r@) == palette_spec(self@.theme),
    {
        match self.get_theme_colors() {
            Some(dto) => {
                let configured = match dto.confetti_colors {
                    Some(cc) => cc,
                    None => Vec::new(),
                };
                if configured.len() > 0 {
                    configured
                } else {
                    match dto.base {
                        BaseTheme::Light => one_color("#000000"),
                        BaseTheme::Dark => one_color("#ffffff"),
                        BaseTheme::Custom => default_confetti_exec(),
                    }
                }
            },
            None => one_color("#000000"),
        }
    }
}

/// A palette of a single color.
fn one_color(c: &str) -> (r: Vec<String>)
    ensures
        strs_view(r@) =~= seq![c@],
{
    let mut v: Vec<String> = Vec::new();
    v.push(c.to_owned());
    v
}

/// The colorful default palette, built at run time.
fn default_confetti_exec() -> (r: Vec<String>)
    ensures
        strs_view(r@) == default_confetti(),
{
    let mut v: Vec<String> = Vec::new();
    v.push("#ef4444".to_owned());
    v.push("#22c55e".to_owned());
    v.push("#3b82f6".to_owned());
    v.push("#eab308".to_owned());
    v.push("#a855f7".to_owned());
    proof {
        assert(strs_view(v@) =~= default_confetti());
    }
    v
}

/// Sorting keeps the number of triples.
proof fn lemma_sel_sorted_len(ps: Seq<(u64, int, Seq<char>)>)
    ensures
        sel_sorted(ps).len() == ps.len(),
    decreases ps.len(),
{
    if ps.len() > 0 {
        lemma_min_pair_props(ps);
        lemma_sel_sorted_len(ps.remove(min_pair_idx(ps)));
    }
}

/// The least triple's position: in range, nothing strictly before it, and
/// strictly before every earlier triple.
proof fn lemma_min_pair_props(ps: Seq<(u64, int, Seq<char>)>)
    requires
        ps.len() > 0,
    ensures
        0 <= min_pair_idx(ps) < ps.len(),
        forall|k: int| 0 <= k < ps.len() ==> !pair_before(#[trigger] ps[k], ps[min_pair_idx(ps)]),
        forall|k: int| 0 <= k < min_pair_idx(ps) ==> pair_before(ps[min_pair_idx(ps)], #[trigger] ps[k]),
    decreases ps.len(),
{
    if ps.len() > 1 {
        lemma_min_pair_props(ps.drop_last());
        assert(forall|k: int| 0 <= k < ps.len() - 1 ==> ps.drop_last()[k] == ps[k]);
    }
}

/// A position that is least, and strictly before every earlier one, is
/// the position the selection picks.
proof fn lemma_min_pair_char(ps: Seq<(u64, int, Seq<char>)>, b: int)
    requires
        ps.len() > 0,
        0 <= b < ps.len(),
        forall|k: int| 0 <= k < ps.len() ==> !pair_before(#[trigger] ps[k], ps[b]),
        forall|k: int| 0 <= k < b ==> pair_before(ps[b], #[trigger] ps[k]),
    ensures
        min_pair_idx(ps) == b,
{
    lemma_min_pair_props(ps);
    let m = min_pair_idx(ps);
    if m < b {
        assert(pair_before(ps[b], ps[m]));
        assert(!pair_before(ps[b], ps[m]));
    } else if b < m {
        assert(pair_before(ps[m], ps[b]));
        assert(!pair_before(ps[m], ps[b]));
    }
}

} // verus!
