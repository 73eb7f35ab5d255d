//! What holds of normal forms, whatever the text.
use crate::text;
use vstd::prelude::*;

verus! {

/// Only letters, digits and spaces, and never two spaces in a row.
pub open spec fn well_spaced(n: Seq<char>) -> bool {
    &&& forall|i: int| 0 <= i < n.len() ==> text::alphanumeric(#[trigger] n[i]) || n[i] == ' '
    &&& forall|i: int, j: int|
        0 <= i && j == i + 1 && j < n.len() ==> !(#[trigger] n[i] == ' ' && #[trigger] n[j] == ' ')
}

/// Well spaced, with no white space at either end.
pub open spec fn in_normal_form(n: Seq<char>) -> bool {
    &&& well_spaced(n)
    &&& n.len() > 0 ==> !text::white_space(n[0]) && !text::white_space(n.last())
}

/// ASCII throughout, with no capital letter.
pub open spec fn lower_ascii(s: Seq<char>) -> bool {
    &&& vstd::utf8::is_ascii_chars(s)
    &&& forall|i: int| 0 <= i < s.len() ==> !('A' <= #[trigger] s[i] <= 'Z')
}

/// Words with one space between each two.
pub open spec fn joined(words: Seq<Seq<char>>) -> Seq<char>
    decreases words.len(),
{
    if words.len() == 0 {
        Seq::empty()
    } else if words.len() == 1 {
        words[0]
    } else {
        joined(words.drop_last()).push(' ') + words.last()
    }
}

/// The words of a text: its longest stretches of letters and digits.
pub open spec fn alphanumeric_words(s: Seq<char>) -> Seq<Seq<char>> {
    text::runs(s, |c: char| text::alphanumeric(c))
}

proof fn lemma_squeezed_well_spaced(s: Seq<char>)
    ensures
        well_spaced(text::squeezed(s)),
        s.len() > 0 ==> text::squeezed(s).len() > 0,
        s.len() > 0 && text::alphanumeric(s.last()) ==> text::squeezed(s).last() == s.last(),
        s.len() > 0 && !text::alphanumeric(s.last()) ==> text::squeezed(s).last() == ' ',
    decreases s.len(),
{
    if s.len() > 0 {
        lemma_squeezed_well_spaced(s.drop_last());
    }
}

proof fn lemma_squeezed_fixed(n: Seq<char>)
    requires
        well_spaced(n),
    ensures
        text::squeezed(n) == n,
    decreases n.len(),
{
    if n.len() > 0 {
        assert(well_spaced(n.drop_last()));
        lemma_squeezed_fixed(n.drop_last());
        assert(n.drop_last().push(n.last()) == n);
        if n.len() >= 2 {
            assert(!(n[n.len() - 2] == ' ' && n[n.len() - 1] == ' '));
        }
    }
}

/// Trimming leaves a stretch of the text that has no white space at its start.
proof fn lemma_trim_start(s: Seq<char>) -> (k: int)
    ensures
        0 <= k <= s.len(),
        text::trim_start(s) == s.subrange(k, s.len() as int),
        k < s.len() ==> !text::white_space(s[k]),
    decreases s.len(),
{
    if s.len() > 0 && text::white_space(s[0]) {
        let k = lemma_trim_start(s.drop_first());
        assert(s.drop_first().subrange(k, s.len() - 1) == s.subrange(k + 1, s.len() as int));
        k + 1
    } else {
        assert(s.subrange(0, s.len() as int) == s);
        0
    }
}

/// Trimming leaves a stretch of the text that has no white space at its end.
proof fn lemma_trim_end(s: Seq<char>) -> (k: int)
    ensures
        0 <= k <= s.len(),
        text::trim_end(s) == s.subrange(0, k),
        k > 0 ==> !text::white_space(s[k - 1]),
    decreases s.len(),
{
    if s.len() > 0 && text::white_space(s.last()) {
        let k = lemma_trim_end(s.drop_last());
        assert(s.drop_last().subrange(0, k) == s.subrange(0, k));
        k
    } else {
        assert(s.subrange(0, s.len() as int) == s);
        s.len() as int
    }
}

/// A normal form is a stretch of the squeezed text.
proof fn lemma_normal_form_is_stretch(lowered: Seq<char>) -> (r: (int, int))
    ensures
        0 <= r.0 <= r.1 <= text::squeezed(lowered).len(),
        text::normal_form(lowered) == text::squeezed(lowered).subrange(r.0, r.1),
        r.0 < r.1 ==> !text::white_space(text::squeezed(lowered)[r.0])
            && !text::white_space(text::squeezed(lowered)[r.1 - 1]),
{
    let sq = text::squeezed(lowered);
    let a = lemma_trim_start(sq);
    let tail = sq.subrange(a, sq.len() as int);
    let b = lemma_trim_end(tail);
    assert(tail.subrange(0, b) == sq.subrange(a, a + b));
    (a, a + b)
}

/// Every normal form is made of words of letters and digits with one space
/// between two words, and of nothing else.
pub proof fn law_normal_form_shape(lowered: Seq<char>)
    ensures
        in_normal_form(text::normal_form(lowered)),
{
    lemma_squeezed_well_spaced(lowered);
    let r = lemma_normal_form_is_stretch(lowered);
    let sq = text::squeezed(lowered);
    let n = sq.subrange(r.0, r.1);
    assert(well_spaced(n)) by {
        assert forall|i: int, j: int| 0 <= i && j == i + 1 && j < n.len() implies !(#[trigger] n[i]
            == ' ' && #[trigger] n[j] == ' ') by {
            assert(!(sq[r.0 + i] == ' ' && sq[r.0 + j] == ' '));
        }
    }
}

/// A text in normal form is its own normal form.
pub proof fn law_normal_form_fixed(n: Seq<char>)
    requires
        in_normal_form(n),
    ensures
        text::normal_form(n) == n,
{
    lemma_squeezed_fixed(n);
}

/// Normalising twice is normalising once, for every text of which the normal
/// form is in lower case.
pub proof fn law_norm_idempotent(s: Seq<char>)
    requires
        text::lowercase(text::normalized(s)) == text::normalized(s),
    ensures
        text::normalized(text::normalized(s)) == text::normalized(s),
{
    law_normal_form_shape(text::lowercase(s));
    law_normal_form_fixed(text::normalized(s));
}

proof fn lemma_lowercase_is_lower_ascii(s: Seq<char>)
    requires
        vstd::utf8::is_ascii_chars(s),
    ensures
        lower_ascii(text::lowercase(s)),
{
    let l = text::lowercase(s);
    assert forall|i: int| 0 <= i < l.len() implies '\0' <= #[trigger] l[i] <= '\u{7f}' && !('A'
        <= l[i] <= 'Z') by {
        assert('\0' <= s[i] <= '\u{7f}');
        assert(l[i] == text::ascii_lowercase_char(s[i]));
    }
}

proof fn lemma_lower_ascii_fixed(s: Seq<char>)
    requires
        lower_ascii(s),
    ensures
        text::lowercase(s) == s,
{
    assert(text::lowercase(s) =~= s);
}

proof fn lemma_squeezed_lower_ascii(s: Seq<char>)
    requires
        lower_ascii(s),
    ensures
        lower_ascii(text::squeezed(s)),
    decreases s.len(),
{
    if s.len() > 0 {
        assert('\0' <= s.last() <= '\u{7f}' && !('A' <= s.last() <= 'Z'));
        lemma_squeezed_lower_ascii(s.drop_last());
    }
}

/// The normal form of an ASCII text is ASCII and in lower case.
pub proof fn law_norm_lowers_ascii(s: Seq<char>)
    requires
        vstd::utf8::is_ascii_chars(s),
    ensures
        lower_ascii(text::normalized(s)),
        text::lowercase(text::normalized(s)) == text::normalized(s),
{
    lemma_lowercase_is_lower_ascii(s);
    lemma_squeezed_lower_ascii(text::lowercase(s));
    let r = lemma_normal_form_is_stretch(text::lowercase(s));
    lemma_lower_ascii_fixed(text::normalized(s));
}

/// Normalising an ASCII text twice is normalising it once.
pub proof fn law_norm_idempotent_ascii(s: Seq<char>)
    requires
        vstd::utf8::is_ascii_chars(s),
    ensures
        text::normalized(text::normalized(s)) == text::normalized(s),
{
    law_norm_lowers_ascii(s);
    law_norm_idempotent(s);
}

/// In an ASCII text capital letters make no difference.
pub proof fn law_norm_ignores_case(s: Seq<char>)
    requires
        vstd::utf8::is_ascii_chars(s),
    ensures
        text::normalized(text::lowercase(s)) == text::normalized(s),
{
    lemma_lowercase_is_lower_ascii(s);
    lemma_lower_ascii_fixed(text::lowercase(s));
}

/// Two words in normal form make a bigram in normal form.
pub proof fn law_bigram_in_normal_form(first: Seq<char>, second: Seq<char>)
    requires
        in_normal_form(first),
        in_normal_form(second),
        first.len() > 0,
        second.len() > 0,
    ensures
        in_normal_form(text::bigram(first, second)),
        text::normal_form(text::bigram(first, second)) == text::bigram(first, second),
{
    let n = text::bigram(first, second);
    let a = first.len() as int;
    assert(n[a] == ' ');
    assert(first[a - 1] != ' ');
    assert(second[0] != ' ');
    assert forall|i: int| 0 <= i < n.len() implies text::alphanumeric(#[trigger] n[i]) || n[i]
        == ' ' by {
        if i < a {
            assert(n[i] == first[i]);
        } else if i > a {
            assert(n[i] == second[i - a - 1]);
        }
    }
    assert forall|i: int, j: int| 0 <= i && j == i + 1 && j < n.len() implies !(#[trigger] n[i]
        == ' ' && #[trigger] n[j] == ' ') by {
        if j < a {
            assert(!(first[i] == ' ' && first[j] == ' '));
        } else if j == a {
            assert(n[i] == first[a - 1]);
        } else if i == a {
            assert(n[j] == second[0]);
        } else {
            assert(!(second[i - a - 1] == ' ' && second[j - a - 1] == ' '));
        }
    }
    law_normal_form_fixed(n);
}

/// What holds of all elements holds of those that are kept.
proof fn lemma_filter_keeps(
    s: Seq<Seq<char>>,
    keep: spec_fn(Seq<char>) -> bool,
    good: spec_fn(Seq<char>) -> bool,
)
    requires
        forall|i: int| 0 <= i < s.len() ==> good(#[trigger] s[i]),
    ensures
        forall|i: int|
            0 <= i < s.filter(keep).len() ==> good(#[trigger] s.filter(keep)[i]) && keep(
                s.filter(keep)[i],
            ),
    decreases s.len(),
{
    reveal(Seq::filter);
    if s.len() > 0 {
        assert forall|i: int| 0 <= i < s.drop_last().len() implies good(
            #[trigger] s.drop_last()[i],
        ) by {
            assert(good(s[i]));
        }
        assert(good(s[s.len() - 1]));
        lemma_filter_keeps(s.drop_last(), keep, good);
        let before = s.drop_last().filter(keep);
        let kept = s.filter(keep);
        assert forall|i: int| 0 <= i < kept.len() implies good(#[trigger] kept[i]) && keep(
            kept[i],
        ) by {
            if i < before.len() {
                assert(kept[i] == before[i]);
            } else {
                assert(kept[i] == s.last());
            }
        }
    }
}

/// Every word heard in a text is in normal form and not empty.
pub proof fn law_heard_words_in_normal_form(heard: Seq<char>)
    ensures
        forall|i: int|
            0 <= i < text::heard_words(heard).len() ==> {
                &&& in_normal_form(#[trigger] text::heard_words(heard)[i])
                &&& text::heard_words(heard)[i].len() > 0
            },
{
    let normals = text::pieces(heard).map_values(|w: Seq<char>| text::normalized(w));
    let good = |w: Seq<char>| in_normal_form(w);
    assert forall|i: int| 0 <= i < normals.len() implies good(#[trigger] normals[i]) by {
        law_normal_form_shape(text::lowercase(text::pieces(heard)[i]));
    }
    lemma_filter_keeps(normals, |w: Seq<char>| w.len() > 0, good);
    assert forall|i: int| 0 <= i < text::heard_words(heard).len() implies in_normal_form(
        #[trigger] text::heard_words(heard)[i],
    ) && text::heard_words(heard)[i].len() > 0 by {
        assert(good(normals.filter(|w: Seq<char>| w.len() > 0)[i]));
    }
}

proof fn lemma_runs_ascii(s: Seq<char>, p: spec_fn(char) -> bool)
    requires
        vstd::utf8::is_ascii_chars(s),
    ensures
        forall|i: int|
            0 <= i < text::runs(s, p).len() ==> vstd::utf8::is_ascii_chars(
                #[trigger] text::runs(s, p)[i],
            ),
    decreases s.len(),
{
    if s.len() > 0 {
        assert('\0' <= s[s.len() - 1] <= '\u{7f}');
        lemma_runs_ascii(s.drop_last(), p);
        let before = text::runs(s.drop_last(), p);
        let all = text::runs(s, p);
        if s.len() >= 2 && p(s.last()) && p(s[s.len() - 2]) {
            text::lemma_runs_nonempty(s.drop_last(), p);
            assert(vstd::utf8::is_ascii_chars(before[before.len() - 1]));
            assert(vstd::utf8::is_ascii_chars(before.last().push(s.last())));
        }
        assert forall|i: int| 0 <= i < all.len() implies vstd::utf8::is_ascii_chars(
            #[trigger] all[i],
        ) by {
            if i < before.len() {
                assert(vstd::utf8::is_ascii_chars(before[i]));
            }
        }
    }
}

/// Every word heard in an ASCII text is ASCII and in lower case.
pub proof fn law_words_of_ascii_text_are_lower(heard: Seq<char>)
    requires
        vstd::utf8::is_ascii_chars(heard),
    ensures
        forall|i: int|
            0 <= i < text::heard_words(heard).len() ==> lower_ascii(
                #[trigger] text::heard_words(heard)[i],
            ),
{
    let normals = text::pieces(heard).map_values(|w: Seq<char>| text::normalized(w));
    let good = |w: Seq<char>| lower_ascii(w);
    lemma_runs_ascii(heard, |c: char| !text::white_space(c));
    assert forall|i: int| 0 <= i < normals.len() implies good(#[trigger] normals[i]) by {
        assert(vstd::utf8::is_ascii_chars(text::pieces(heard)[i]));
        law_norm_lowers_ascii(text::pieces(heard)[i]);
    }
    lemma_filter_keeps(normals, |w: Seq<char>| w.len() > 0, good);
    assert forall|i: int| 0 <= i < text::heard_words(heard).len() implies lower_ascii(
        #[trigger] text::heard_words(heard)[i],
    ) by {
        assert(good(normals.filter(|w: Seq<char>| w.len() > 0)[i]));
    }
}

/// A text in normal form and in lower case is looked up as it stands.
pub proof fn law_lower_normal_form_is_its_own_key(n: Seq<char>)
    requires
        in_normal_form(n),
        lower_ascii(n) || text::lowercase(n) == n,
    ensures
        text::normalized(n) == n,
{
    if lower_ascii(n) {
        lemma_lower_ascii_fixed(n);
    }
    law_normal_form_fixed(n);
}

/// `lead` a space before the words, `trail` a space behind them.
spec fn flanked(lead: bool, words: Seq<char>, trail: bool) -> Seq<char> {
    (if lead {
        seq![' ']
    } else {
        Seq::<char>::empty()
    }) + words + (if trail {
        seq![' ']
    } else {
        Seq::<char>::empty()
    })
}

proof fn lemma_joined_extend(words: Seq<Seq<char>>, c: char)
    requires
        words.len() > 0,
    ensures
        joined(words.drop_last().push(words.last().push(c))) == joined(words).push(c),
{
    let longer = words.drop_last().push(words.last().push(c));
    assert(longer.drop_last() == words.drop_last());
    if words.len() == 1 {
        assert(longer[0] == words[0].push(c));
    } else {
        assert(joined(longer) == joined(words.drop_last()).push(' ') + words.last().push(c));
        assert(joined(words).push(c) == joined(words.drop_last()).push(' ') + words.last().push(
            c,
        ));
    }
}

proof fn lemma_joined_append(words: Seq<Seq<char>>, c: char)
    requires
        words.len() > 0,
    ensures
        joined(words.push(seq![c])) == joined(words).push(' ').push(c),
{
    assert(words.push(seq![c]).drop_last() == words);
    assert(joined(words).push(' ') + seq![c] == joined(words).push(' ').push(c));
}

/// What squeezing does to the words of a text.
proof fn lemma_squeezed_words(s: Seq<char>)
    ensures
        ({
            let words = alphanumeric_words(s);
            let j = joined(words);
            &&& s.len() == 0 ==> words.len() == 0
            &&& s.len() > 0 && text::alphanumeric(s.last()) ==> words.len() > 0
            &&& s.len() > 0 && words.len() == 0 ==> text::squeezed(s) == seq![' ']
                && !text::alphanumeric(s[0])
            &&& words.len() > 0 ==> {
                &&& text::squeezed(s) == flanked(
                    !text::alphanumeric(s[0]),
                    j,
                    !text::alphanumeric(s.last()),
                )
                &&& j.len() > 0
                &&& !text::white_space(j[0])
                &&& !text::white_space(j.last())
            }
        }),
    decreases s.len(),
{
    if s.len() > 0 {
        let m = s.drop_last();
        let c = s.last();
        let words = alphanumeric_words(s);
        let before = alphanumeric_words(m);
        lemma_squeezed_words(m);
        if m.len() == 0 {
            assert(text::squeezed(m) == Seq::<char>::empty());
            if text::alphanumeric(c) {
                assert(words == seq![seq![c]]);
                assert(joined(words) == seq![c]);
                assert(text::squeezed(s) == seq![c]);
                assert(flanked(false, seq![c], false) == seq![c]);
            } else {
                assert(text::squeezed(s) == seq![' ']);
            }
        } else {
            let lead = !text::alphanumeric(s[0]);
            let prev = text::alphanumeric(m.last());
            assert(m[0] == s[0]);
            if text::alphanumeric(c) {
                if prev {
                    lemma_joined_extend(before, c);
                    assert(flanked(lead, joined(before), false).push(c) == flanked(
                        lead,
                        joined(before).push(c),
                        false,
                    ));
                } else if before.len() == 0 {
                    assert(words == seq![seq![c]]);
                    assert(joined(words) == seq![c]);
                    assert(seq![' '].push(c) == flanked(true, seq![c], false));
                } else {
                    lemma_joined_append(before, c);
                    assert(flanked(lead, joined(before), true).push(c) == flanked(
                        lead,
                        joined(before).push(' ').push(c),
                        false,
                    ));
                }
            } else if prev {
                assert(flanked(lead, joined(before), false).push(' ') == flanked(
                    lead,
                    joined(before),
                    true,
                ));
            }
        }
    }
}

/// The normal form of a text is its words with one space between each two.
pub proof fn law_normal_form_joins_words(lowered: Seq<char>)
    ensures
        text::normal_form(lowered) == joined(alphanumeric_words(lowered)),
{
    lemma_squeezed_words(lowered);
    let words = alphanumeric_words(lowered);
    let j = joined(words);
    let sq = text::squeezed(lowered);
    if words.len() == 0 {
        if lowered.len() > 0 {
            assert(sq.drop_first() == Seq::<char>::empty());
            assert(text::trim_start(sq) == text::trim_start(sq.drop_first()));
        }
        assert(text::normal_form(lowered) == Seq::<char>::empty());
    } else {
        let lead = !text::alphanumeric(lowered[0]);
        let trail = !text::alphanumeric(lowered.last());
        let rest = flanked(false, j, trail);
        if lead {
            assert(sq.drop_first() == rest);
            assert(sq[0] == ' ');
        } else {
            assert(sq == rest);
        }
        assert(rest[0] == j[0]);
        assert(text::trim_start(rest) == rest);
        assert(text::trim_start(sq) == rest);
        assert(text::trim_end(j) == j);
        if trail {
            assert(rest.last() == ' ');
            assert(rest.drop_last() == j);
        } else {
            assert(rest == j);
        }
        assert(text::trim_end(rest) == j);
    }
}

/// The normal form of a text is its words, in lower case, with one space
/// between each two.
pub proof fn law_norm_joins_words(s: Seq<char>)
    ensures
        text::normalized(s) == joined(alphanumeric_words(text::lowercase(s))),
{
    law_normal_form_joins_words(text::lowercase(s));
}

/// What is left of two texts in normal form when they are said one after the
/// other: the two with a space between, or the one that is not empty.
pub open spec fn said_together(first: Seq<char>, second: Seq<char>) -> Seq<char> {
    if first.len() == 0 {
        second
    } else if second.len() == 0 {
        first
    } else {
        text::bigram(first, second)
    }
}

/// A character that ends every run parts the runs before it from those after.
proof fn lemma_runs_parted(x: Seq<char>, c: char, y: Seq<char>, p: spec_fn(char) -> bool)
    requires
        !p(c),
    ensures
        text::runs(x.push(c) + y, p) == text::runs(x, p) + text::runs(y, p),
    decreases y.len(),
{
    let all = x.push(c) + y;
    let before = text::runs(x, p);
    if y.len() == 0 {
        assert(all.drop_last() == x);
        assert(before + Seq::<Seq<char>>::empty() == before);
    } else {
        let m = y.drop_last();
        assert(all.drop_last() == x.push(c) + m);
        lemma_runs_parted(x, c, m, p);
        let after = text::runs(m, p);
        if p(y.last()) {
            if y.len() >= 2 && p(y[y.len() - 2]) {
                text::lemma_runs_nonempty(m, p);
                let longer = after.last().push(y.last());
                assert((before + after).drop_last().push(longer) == before
                    + after.drop_last().push(longer));
            } else {
                assert((before + after).push(seq![y.last()]) == before + after.push(
                    seq![y.last()],
                ));
            }
        }
    }
}

/// Joining words in two parts is joining them in one.
proof fn lemma_joined_parts(words: Seq<Seq<char>>, more: Seq<Seq<char>>)
    requires
        words.len() > 0,
        more.len() > 0,
    ensures
        joined(words + more) == text::bigram(joined(words), joined(more)),
    decreases more.len(),
{
    let all = words + more;
    assert(all.drop_last() == words + more.drop_last());
    if more.len() == 1 {
        assert(words + more.drop_last() == words);
    } else {
        lemma_joined_parts(words, more.drop_last());
        let a = joined(words).push(' ');
        let b = joined(more.drop_last());
        assert((a + b).push(' ') + more.last() == a + (b.push(' ') + more.last()));
    }
}

/// The normal form of two texts with a space between is their normal forms with
/// a space between, or the one that is not empty.
pub proof fn law_normal_form_of_two_texts(x: Seq<char>, y: Seq<char>)
    ensures
        text::normal_form(x.push(' ') + y) == said_together(
            text::normal_form(x),
            text::normal_form(y),
        ),
{
    let p = |c: char| text::alphanumeric(c);
    let a = alphanumeric_words(x);
    let b = alphanumeric_words(y);
    lemma_runs_parted(x, ' ', y, p);
    law_normal_form_joins_words(x);
    law_normal_form_joins_words(y);
    law_normal_form_joins_words(x.push(' ') + y);
    lemma_squeezed_words(x);
    lemma_squeezed_words(y);
    if a.len() == 0 {
        assert(a + b == b);
    } else if b.len() == 0 {
        assert(a + b == a);
    } else {
        lemma_joined_parts(a, b);
    }
}

/// Normalising two texts with a space between is normalising each, in ASCII and
/// in any texts that are lower-cased each for itself.
pub proof fn law_norm_of_two_texts(a: Seq<char>, b: Seq<char>)
    requires
        (vstd::utf8::is_ascii_chars(a) && vstd::utf8::is_ascii_chars(b)) || text::lowercase(
            a.push(' ') + b,
        ) == text::lowercase(a).push(' ') + text::lowercase(b),
    ensures
        text::normalized(a.push(' ') + b) == said_together(
            text::normalized(a),
            text::normalized(b),
        ),
{
    if vstd::utf8::is_ascii_chars(a) && vstd::utf8::is_ascii_chars(b) {
        assert(vstd::utf8::is_ascii_chars(a.push(' ') + b));
        assert(text::lowercase(a.push(' ') + b) =~= text::lowercase(a).push(' ')
            + text::lowercase(b));
    }
    law_normal_form_of_two_texts(text::lowercase(a), text::lowercase(b));
}

/// Lower-casing an ASCII text moves each capital letter to the small one and
/// leaves every other character; any other text it hands to the general mapping.
pub proof fn law_lowercase_by_character(s: Seq<char>, i: int)
    ensures
        vstd::utf8::is_ascii_chars(s) ==> text::lowercase(s).len() == s.len(),
        vstd::utf8::is_ascii_chars(s) && 0 <= i < s.len() && 65 <= s[i] as int <= 90
            ==> text::lowercase(s)[i] as int == s[i] as int + 32,
        vstd::utf8::is_ascii_chars(s) && 0 <= i < s.len() && !(65 <= s[i] as int <= 90)
            ==> text::lowercase(s)[i] == s[i],
        !vstd::utf8::is_ascii_chars(s) ==> text::lowercase(s) == text::unicode_lowercase(s),
{
}

/// Among the ASCII characters the letters and digits are those from `0` to `9`,
/// from `A` to `Z` and from `a` to `z`; beyond them no white space is one.
pub proof fn law_alphanumeric_by_code(c: char)
    ensures
        (c as int) < 128 ==> (text::alphanumeric(c) <==> 48 <= c as int <= 57 || 65 <= c as int
            <= 90 || 97 <= c as int <= 122),
        (c as int) >= 128 && !text::white_space(c) ==> text::alphanumeric(c)
            == text::unicode_alphanumeric(c),
        text::white_space(c) ==> !text::alphanumeric(c),
{
}

/// White space is these characters and no others.
pub proof fn law_white_space_by_code(c: char)
    ensures
        text::white_space(c) <==> set![
            0x9int,
            0xa,
            0xb,
            0xc,
            0xd,
            0x20,
            0x85,
            0xa0,
            0x1680,
            0x2000,
            0x2001,
            0x2002,
            0x2003,
            0x2004,
            0x2005,
            0x2006,
            0x2007,
            0x2008,
            0x2009,
            0x200a,
            0x2028,
            0x2029,
            0x202f,
            0x205f,
            0x3000,
        ].contains(c as int),
{
}

/// A text of letters and digits alone is its own normal form.
pub proof fn law_word_is_its_normal_form(w: Seq<char>)
    requires
        forall|i: int| 0 <= i < w.len() ==> text::alphanumeric(#[trigger] w[i]),
    ensures
        text::normal_form(w) == w,
{
    assert forall|i: int| 0 <= i < w.len() implies w[i] != ' ' && !text::white_space(
        #[trigger] w[i],
    ) by {
        assert(text::alphanumeric(w[i]));
    }
    law_normal_form_fixed(w);
}

/// Any other character than a letter or digit parts a text in two, of which the
/// normal forms are put together with one space, or with none where one of them
/// is empty.
pub proof fn law_separator_parts_normal_form(x: Seq<char>, c: char, y: Seq<char>)
    requires
        !text::alphanumeric(c),
    ensures
        text::normal_form(x.push(c) + y) == (if text::normal_form(x).len() == 0 {
            text::normal_form(y)
        } else if text::normal_form(y).len() == 0 {
            text::normal_form(x)
        } else {
            text::normal_form(x) + seq![' '] + text::normal_form(y)
        }),
{
    let p = |d: char| text::alphanumeric(d);
    let a = alphanumeric_words(x);
    let b = alphanumeric_words(y);
    lemma_runs_parted(x, c, y, p);
    law_normal_form_joins_words(x);
    law_normal_form_joins_words(y);
    law_normal_form_joins_words(x.push(c) + y);
    lemma_squeezed_words(x);
    lemma_squeezed_words(y);
    if a.len() == 0 {
        assert(a + b == b);
    } else if b.len() == 0 {
        assert(a + b == a);
    } else {
        lemma_joined_parts(a, b);
        assert(joined(a) + seq![' '] == joined(a).push(' '));
    }
}

/// Normalising is lower-casing and then bringing into normal form.
pub proof fn law_norm_is_normal_form_of_lowercase(s: Seq<char>)
    ensures
        text::normalized(s) == text::normal_form(text::lowercase(s)),
{
}

/// An ASCII text of letters and digits alone is normalised letter by letter.
pub proof fn law_norm_of_ascii_word(w: Seq<char>, i: int)
    requires
        vstd::utf8::is_ascii_chars(w),
        forall|k: int| 0 <= k < w.len() ==> text::alphanumeric(#[trigger] w[k]),
    ensures
        text::normalized(w).len() == w.len(),
        0 <= i < w.len() ==> text::normalized(w)[i] as int == (if 65 <= w[i] as int <= 90 {
            w[i] as int + 32
        } else {
            w[i] as int
        }),
{
    let l = text::lowercase(w);
    assert forall|k: int| 0 <= k < l.len() implies text::alphanumeric(#[trigger] l[k]) by {
        assert('\0' <= w[k] <= '\u{7f}');
        assert(text::alphanumeric(w[k]));
        law_lowercase_by_character(w, k);
    }
    law_word_is_its_normal_form(l);
    law_lowercase_by_character(w, i);
}

/// In ASCII any other character than a letter or digit parts a text in two, and
/// each is normalised for itself.
pub proof fn law_separator_parts_norm(a: Seq<char>, c: char, b: Seq<char>)
    requires
        vstd::utf8::is_ascii_chars(a),
        vstd::utf8::is_ascii_chars(b),
        (c as int) < 128,
        !text::alphanumeric(c),
    ensures
        text::normalized(a.push(c) + b) == (if text::normalized(a).len() == 0 {
            text::normalized(b)
        } else if text::normalized(b).len() == 0 {
            text::normalized(a)
        } else {
            text::normalized(a) + seq![' '] + text::normalized(b)
        }),
{
    assert(vstd::utf8::is_ascii_chars(a.push(c) + b));
    assert(text::lowercase(a.push(c) + b) =~= text::lowercase(a).push(c) + text::lowercase(b));
    law_separator_parts_normal_form(text::lowercase(a), c, text::lowercase(b));
}

/// Where `p` holds throughout there is one run.
proof fn lemma_runs_whole(s: Seq<char>, p: spec_fn(char) -> bool)
    requires
        s.len() > 0,
        forall|i: int| 0 <= i < s.len() ==> p(#[trigger] s[i]),
    ensures
        text::runs(s, p) == seq![s],
    decreases s.len(),
{
    let m = s.drop_last();
    assert(p(s[s.len() - 1]));
    if m.len() == 0 {
        assert(text::runs(m, p) == Seq::<Seq<char>>::empty());
        assert(s == seq![s.last()]);
    } else {
        assert forall|i: int| 0 <= i < m.len() implies p(#[trigger] m[i]) by {
            assert(p(s[i]));
        }
        lemma_runs_whole(m, p);
        assert(p(s[s.len() - 2]));
        assert(m.push(s.last()) == s);
        assert(seq![m].drop_last().push(s) == seq![s]);
    }
}

/// A text without white space is one piece, unless it is empty.
pub proof fn law_text_without_white_space_is_one_piece(w: Seq<char>)
    requires
        forall|i: int| 0 <= i < w.len() ==> !text::white_space(#[trigger] w[i]),
    ensures
        text::pieces(w) == (if w.len() == 0 {
            Seq::<Seq<char>>::empty()
        } else {
            seq![w]
        }),
{
    if w.len() > 0 {
        lemma_runs_whole(w, |c: char| !text::white_space(c));
    }
}

/// White space parts a text in two, and no piece is lost, added or moved.
pub proof fn law_white_space_parts_pieces(x: Seq<char>, c: char, y: Seq<char>)
    requires
        text::white_space(c),
    ensures
        text::pieces(x.push(c) + y) == text::pieces(x) + text::pieces(y),
{
    lemma_runs_parted(x, c, y, |d: char| !text::white_space(d));
}

/// A text without white space is heard as one word, its normal form, unless
/// that is empty.
pub proof fn law_text_without_white_space_is_one_word(w: Seq<char>)
    requires
        forall|i: int| 0 <= i < w.len() ==> !text::white_space(#[trigger] w[i]),
    ensures
        text::heard_words(w) == (if text::normalized(w).len() == 0 {
            Seq::<Seq<char>>::empty()
        } else {
            seq![text::normalized(w)]
        }),
{
    law_text_without_white_space_is_one_piece(w);
    let normals = text::pieces(w).map_values(|v: Seq<char>| text::normalized(v));
    reveal(Seq::filter);
    if w.len() == 0 {
        law_word_is_its_normal_form(text::lowercase(w));
        assert(normals == Seq::<Seq<char>>::empty());
    } else {
        assert(normals == seq![text::normalized(w)]);
        assert(normals.drop_last() == Seq::<Seq<char>>::empty());
        assert(normals.drop_last().filter(|v: Seq<char>| v.len() > 0) == Seq::<
            Seq<char>,
        >::empty());
        assert(Seq::<Seq<char>>::empty().push(text::normalized(w)) == seq![text::normalized(w)]);
    }
}

/// White space parts a text in two, and what is heard in it is what is heard in
/// the one and then in the other.
pub proof fn law_white_space_parts_heard_words(x: Seq<char>, c: char, y: Seq<char>)
    requires
        text::white_space(c),
    ensures
        text::heard_words(x.push(c) + y) == text::heard_words(x) + text::heard_words(y),
{
    law_white_space_parts_pieces(x, c, y);
    let f = |v: Seq<char>| text::normalized(v);
    let keep = |v: Seq<char>| v.len() > 0;
    let a = text::pieces(x);
    let b = text::pieces(y);
    assert((a + b).map_values(f) == a.map_values(f) + b.map_values(f));
    Seq::filter_distributes_over_add(a.map_values(f), b.map_values(f), keep);
}

/// No word is passed over: the words heard in an ASCII text, with one space
/// between each two, are the normal form of the whole text.
pub proof fn law_heard_words_are_the_whole_text(s: Seq<char>)
    requires
        vstd::utf8::is_ascii_chars(s),
    ensures
        joined(text::heard_words(s)) == text::normalized(s),
    decreases s.len(),
{
    if forall|i: int| 0 <= i < s.len() ==> !text::white_space(#[trigger] s[i]) {
        law_text_without_white_space_is_one_word(s);
        if text::normalized(s).len() == 0 {
            assert(text::normalized(s) == Seq::<char>::empty());
        }
    } else {
        let k = choose|k: int| 0 <= k < s.len() && text::white_space(#[trigger] s[k]);
        let x = s.take(k);
        let c = s[k];
        let y = s.skip(k + 1);
        assert(s == x.push(c) + y);
        assert('\0' <= s[k] <= '\u{7f}');
        law_alphanumeric_by_code(c);
        law_heard_words_are_the_whole_text(x);
        law_heard_words_are_the_whole_text(y);
        law_white_space_parts_heard_words(x, c, y);
        law_separator_parts_norm(x, c, y);
        let a = text::heard_words(x);
        let b = text::heard_words(y);
        law_heard_words_in_normal_form(x);
        law_heard_words_in_normal_form(y);
        lemma_joined_nonempty(a);
        lemma_joined_nonempty(b);
        if a.len() == 0 {
            assert(a + b == b);
        } else if b.len() == 0 {
            assert(a + b == a);
        } else {
            lemma_joined_parts(a, b);
            assert(joined(a) + seq![' '] == joined(a).push(' '));
        }
    }
}

/// Words that are not empty are joined to nothing only where there are none.
proof fn lemma_joined_nonempty(words: Seq<Seq<char>>)
    requires
        forall|i: int| 0 <= i < words.len() ==> (#[trigger] words[i]).len() > 0,
    ensures
        joined(words).len() == 0 <==> words.len() == 0,
{
    if words.len() > 0 {
        assert(words[words.len() - 1].len() > 0);
    }
}

/// A bigram is the one word, a space and the other.
pub proof fn law_bigram_by_parts(first: Seq<char>, second: Seq<char>)
    ensures
        text::bigram(first, second) == first + seq![' '] + second,
{
}

/// A text has another in it exactly where something can stand before and behind
/// the other to make the whole.
pub proof fn law_contained_text_has_sides(hay: Seq<char>, needle: Seq<char>)
    ensures
        text::contains_text(hay, needle) <==> exists|x: Seq<char>, y: Seq<char>|
            hay == #[trigger] (x + needle + y),
{
    if text::contains_text(hay, needle) {
        let at = choose|at: int| text::occurs_at(hay, needle, at);
        let x = hay.take(at);
        let y = hay.skip(at + needle.len());
        assert(hay == x + needle + y);
    }
    if exists|x: Seq<char>, y: Seq<char>| hay == #[trigger] (x + needle + y) {
        let (x, y) = choose|x: Seq<char>, y: Seq<char>| hay == #[trigger] (x + needle + y);
        let at = x.len() as int;
        assert(hay.subrange(at, at + needle.len()) == needle);
        assert(text::occurs_at(hay, needle, at));
    }
}

/// The texts of strings are theirs, one by one.
pub proof fn law_texts_one_by_one(v: Seq<String>, i: int)
    ensures
        text::texts(v).len() == v.len(),
        0 <= i < v.len() ==> text::texts(v)[i] == v[i]@,
{
}

} // verus!
