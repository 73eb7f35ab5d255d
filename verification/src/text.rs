//! Text: lower-casing, normal forms of phrases, and splitting into words.
use vstd::prelude::*;
use vstd::string::*;

verus! {

/// Whether `c` is an ASCII letter or digit.
pub open spec fn ascii_alphanumeric(c: char) -> bool {
    'a' <= c <= 'z' || 'A' <= c <= 'Z' || '0' <= c <= '9'
}

/// `c` with an ASCII capital letter turned into the small one.
pub open spec fn ascii_lowercase_char(c: char) -> char {
    if 'A' <= c <= 'Z' {
        ((c as u32) + 32) as char
    } else {
        c
    }
}

/// What `str::to_lowercase` makes of a text that is not all ASCII.
pub uninterp spec fn unicode_lowercase(s: Seq<char>) -> Seq<char>;

/// Whether `char::is_alphanumeric` holds of a character outside ASCII that is no
/// white space.
pub uninterp spec fn unicode_alphanumeric(c: char) -> bool;

/// The lower-case form of a text.
pub open spec fn lowercase(s: Seq<char>) -> Seq<char> {
    if vstd::utf8::is_ascii_chars(s) {
        s.map_values(|c: char| ascii_lowercase_char(c))
    } else {
        unicode_lowercase(s)
    }
}

/// Whether a character is a letter or a digit.
pub open spec fn alphanumeric(c: char) -> bool {
    if (c as u32) < 128 {
        ascii_alphanumeric(c)
    } else {
        !white_space(c) && unicode_alphanumeric(c)
    }
}

/// The Unicode property `White_Space`.
pub open spec fn white_space(c: char) -> bool {
    let n = c as u32;
    ||| 0x9 <= n <= 0xd
    ||| n == 0x20
    ||| n == 0x85
    ||| n == 0xa0
    ||| n == 0x1680
    ||| 0x2000 <= n <= 0x200a
    ||| n == 0x2028
    ||| n == 0x2029
    ||| n == 0x202f
    ||| n == 0x205f
    ||| n == 0x3000
}

/// `str::to_lowercase`: an ASCII text has its capital letters mapped to small
/// ones and nothing else changed; what becomes of any other text is a function
/// of that text.
pub assume_specification[ str::to_lowercase ](s: &str) -> (r: String)
    ensures
        vstd::utf8::is_ascii_chars(s@) ==> r@ == s@.map_values(|c: char| ascii_lowercase_char(c)),
        !vstd::utf8::is_ascii_chars(s@) ==> r@ == unicode_lowercase(s@),
;

/// `char::is_alphanumeric`: among the ASCII characters it holds of the letters
/// and digits; it holds of no white space, which Unicode counts neither among
/// the letters nor among the numbers; elsewhere it is a function of the
/// character.
pub assume_specification[ char::is_alphanumeric ](c: char) -> (b: bool)
    ensures
        (c as u32) < 128 ==> b == ascii_alphanumeric(c),
        white_space(c) ==> !b,
        (c as u32) >= 128 && !white_space(c) ==> b == unicode_alphanumeric(c),
;

/// `char::is_whitespace`: the Unicode property `White_Space`.
pub assume_specification[ char::is_whitespace ](c: char) -> (b: bool)
    ensures
        b == white_space(c),
;

/// `String::push`: appends one character.
pub assume_specification[ String::push ](s: &mut String, c: char)
    ensures
        final(s)@ == old(s)@.push(c),
;

/// The text with every run of other characters than letters and digits
/// replaced by one space.
pub open spec fn squeezed(s: Seq<char>) -> Seq<char>
    decreases s.len(),
{
    if s.len() == 0 {
        s
    } else if alphanumeric(s.last()) {
        squeezed(s.drop_last()).push(s.last())
    } else if s.len() >= 2 && !alphanumeric(s[s.len() - 2]) {
        squeezed(s.drop_last())
    } else {
        squeezed(s.drop_last()).push(' ')
    }
}

/// The text without the white space it begins with.
pub open spec fn trim_start(s: Seq<char>) -> Seq<char>
    decreases s.len(),
{
    if s.len() > 0 && white_space(s[0]) {
        trim_start(s.drop_first())
    } else {
        s
    }
}

/// The text without the white space it ends in.
pub open spec fn trim_end(s: Seq<char>) -> Seq<char>
    decreases s.len(),
{
    if s.len() > 0 && white_space(s.last()) {
        trim_end(s.drop_last())
    } else {
        s
    }
}

/// The normal form of a lower-case text.
pub open spec fn normal_form(lowered: Seq<char>) -> Seq<char> {
    trim_end(trim_start(squeezed(lowered)))
}

/// The normal form of a text: what triggers are filed and looked up under.
pub open spec fn normalized(s: Seq<char>) -> Seq<char> {
    normal_form(lowercase(s))
}

/// The longest stretches of `s` in which `p` holds throughout, in their order.
pub open spec fn runs(s: Seq<char>, p: spec_fn(char) -> bool) -> Seq<Seq<char>>
    decreases s.len(),
{
    if s.len() == 0 {
        Seq::empty()
    } else {
        let before = runs(s.drop_last(), p);
        if !p(s.last()) {
            before
        } else if s.len() >= 2 && p(s[s.len() - 2]) {
            before.drop_last().push(before.last().push(s.last()))
        } else {
            before.push(seq![s.last()])
        }
    }
}

/// The pieces of a text between white space.
pub open spec fn pieces(s: Seq<char>) -> Seq<Seq<char>> {
    runs(s, |c: char| !white_space(c))
}

/// The words that are heard in a text: its pieces in normal form, those left
/// out of which nothing remains.
pub open spec fn heard_words(s: Seq<char>) -> Seq<Seq<char>> {
    pieces(s).map_values(|w: Seq<char>| normalized(w)).filter(|w: Seq<char>| w.len() > 0)
}

/// Two words with a space between them.
pub open spec fn bigram(first: Seq<char>, second: Seq<char>) -> Seq<char> {
    first.push(' ') + second
}

/// Whether `needle` occurs in `hay` at `at`.
pub open spec fn occurs_at(hay: Seq<char>, needle: Seq<char>, at: int) -> bool {
    0 <= at <= hay.len() - needle.len() && hay.subrange(at, at + needle.len()) == needle
}

/// Whether `needle` occurs in `hay`.
pub open spec fn contains_text(hay: Seq<char>, needle: Seq<char>) -> bool {
    exists|at: int| occurs_at(hay, needle, at)
}

/// The texts that a list of strings holds.
pub open spec fn texts(v: Seq<String>) -> Seq<Seq<char>> {
    v.map_values(|w: String| w@)
}

/// Where `p` holds of the last character there is a run.
pub proof fn lemma_runs_nonempty(s: Seq<char>, p: spec_fn(char) -> bool)
    requires
        s.len() > 0,
        p(s.last()),
    ensures
        runs(s, p).len() > 0,
    decreases s.len(),
{
    if s.len() >= 2 && p(s[s.len() - 2]) {
        lemma_runs_nonempty(s.drop_last(), p);
    }
}

/// The characters of a text, one by one.
fn chars_of(s: &str) -> (v: Vec<char>)
    ensures
        v@ == s@,
{
    let mut v: Vec<char> = Vec::new();
    for c in it: s.chars()
        invariant
            v@ == it.seq().take(it.index()),
            it.seq() == s@,
    {
        v.push(c);
        assert(it.seq().take(it.index() + 1) == it.seq().take(it.index()).push(c));
    }
    v
}

/// The characters from `from` up to `to`, as a text.
fn string_of(v: &Vec<char>, from: usize, to: usize) -> (r: String)
    requires
        from <= to <= v@.len(),
    ensures
        r@ == v@.subrange(from as int, to as int),
{
    let mut r: String = String::new();
    for i in from..to
        invariant
            from <= i <= to <= v@.len(),
            r@ == v@.subrange(from as int, i as int),
    {
        r.push(v[i]);
        assert(v@.subrange(from as int, i + 1) == v@.subrange(from as int, i as int).push(
            v@[i as int],
        ));
    }
    r
}

/// Replaces every run of other characters than letters and digits by one space.
fn squeeze(v: &Vec<char>) -> (out: Vec<char>)
    ensures
        out@ == squeezed(v@),
{
    let mut out: Vec<char> = Vec::with_capacity(v.len());
    let mut last_space: bool = false;
    for i in 0..v.len()
        invariant
            out@ == squeezed(v@.take(i as int)),
            last_space == (i > 0 && !alphanumeric(v@[i - 1])),
    {
        let ch: char = v[i];
        assert(v@.take(i + 1).drop_last() == v@.take(i as int));
        if ch.is_alphanumeric() {
            out.push(ch);
            last_space = false;
        } else if !last_space {
            out.push(' ');
            last_space = true;
        }
    }
    assert(v@.take(v@.len() as int) == v@);
    out
}

/// The text without the white space that it begins with and ends in.
fn trim(v: &Vec<char>) -> (r: String)
    ensures
        r@ == trim_end(trim_start(v@)),
{
    let mut from: usize = 0;
    assert(v@.skip(0) == v@);
    while from < v.len() && v[from].is_whitespace()
        invariant
            from <= v@.len(),
            trim_start(v@) == trim_start(v@.skip(from as int)),
        decreases v@.len() - from,
    {
        assert(v@.skip(from as int).drop_first() == v@.skip(from + 1));
        from += 1;
    }
    let mut to: usize = v.len();
    assert(v@.skip(from as int) == v@.subrange(from as int, to as int));
    while from < to && v[to - 1].is_whitespace()
        invariant
            from <= to <= v@.len(),
            trim_end(trim_start(v@)) == trim_end(v@.subrange(from as int, to as int)),
        decreases to,
    {
        assert(v@.subrange(from as int, to as int).drop_last() == v@.subrange(
            from as int,
            to - 1,
        ));
        to -= 1;
    }
    string_of(v, from, to)
}

/// The normal form of a text that is in lower case already.
pub fn norm_lowered(lowered: &str) -> (r: String)
    ensures
        r@ == normal_form(lowered@),
{
    let chars: Vec<char> = chars_of(lowered);
    let squeezed_chars: Vec<char> = squeeze(&chars);
    trim(&squeezed_chars)
}

/// The normal form of a text: lower case, words of letters and digits, one
/// space between two words.
pub fn norm(s: &str) -> (r: String)
    ensures
        r@ == normalized(s@),
{
    let lowered: String = s.to_lowercase();
    norm_lowered(lowered.as_str())
}

/// The pieces of a text between white space.
pub fn split_whitespace(text: &str) -> (out: Vec<String>)
    ensures
        texts(out@) == pieces(text@),
{
    let chars: Vec<char> = chars_of(text);
    let mut out: Vec<String> = Vec::new();
    let mut in_piece: bool = false;
    let ghost p = |c: char| !white_space(c);
    for i in 0..chars.len()
        invariant
            p == (|c: char| !white_space(c)),
            texts(out@) == runs(chars@.take(i as int), p),
            in_piece == (i > 0 && p(chars@[i - 1])),
    {
        let c: char = chars[i];
        let ghost before = chars@.take(i as int);
        let ghost words = texts(out@);
        assert(chars@.take(i + 1).drop_last() == before);
        if c.is_whitespace() {
            in_piece = false;
        } else if in_piece {
            proof {
                lemma_runs_nonempty(before, p);
            }
            let mut w: String = out.pop().unwrap();
            assert(w@ == words.last());
            assert(texts(out@) == words.drop_last());
            w.push(c);
            out.push(w);
            assert(texts(out@) == words.drop_last().push(words.last().push(c)));
        } else {
            let mut w: String = String::new();
            w.push(c);
            out.push(w);
            assert(w@ == seq![c]);
            assert(texts(out@) == words.push(seq![c]));
            in_piece = true;
        }
    }
    assert(chars@.take(chars@.len() as int) == chars@);
    out
}

/// The words of a decoded text, in normal form; a piece of which the normal
/// form is empty is passed over.
pub fn tokens(text: &str) -> (out: Vec<String>)
    ensures
        texts(out@) == heard_words(text@),
{
    let parts: Vec<String> = split_whitespace(text);
    let mut out: Vec<String> = Vec::new();
    let ghost normals = pieces(text@).map_values(|w: Seq<char>| normalized(w));
    let ghost keep = |w: Seq<char>| w.len() > 0;
    for i in 0..parts.len()
        invariant
            keep == (|w: Seq<char>| w.len() > 0),
            texts(parts@) == pieces(text@),
            normals == pieces(text@).map_values(|w: Seq<char>| normalized(w)),
            texts(out@) == normals.take(i as int).filter(keep),
    {
        let w: String = norm(parts[i].as_str());
        proof {
            assert(texts(parts@)[i as int] == parts@[i as int]@);
            assert(normals[i as int] == w@);
            assert(normals.take(i + 1).drop_last() == normals.take(i as int));
            reveal(Seq::filter);
        }
        let ghost words = texts(out@);
        if !w.as_str().is_empty() {
            out.push(w);
            assert(texts(out@) == words.push(w@));
        }
    }
    assert(normals.take(parts@.len() as int) == normals);
    out
}

/// Two words with a space between them.
pub fn join_words(first: &String, second: &String) -> (r: String)
    ensures
        r@ == bigram(first@, second@),
{
    let mut r: String = first.clone();
    r.push(' ');
    r.append(second.as_str());
    r
}

/// Whether `n` occurs in `h` at `at`.
fn matches_at(h: &Vec<char>, n: &Vec<char>, at: usize) -> (b: bool)
    requires
        at + n@.len() <= h@.len(),
    ensures
        b == occurs_at(h@, n@, at as int),
{
    let room: usize = h.len();
    for k in 0..n.len()
        invariant
            room == h@.len(),
            at + n@.len() <= room,
            forall|j: int| 0 <= j < k ==> h@[at + j] == n@[j],
    {
        if h[at + k] != n[k] {
            assert(h@.subrange(at as int, at + n@.len())[k as int] != n@[k as int]);
            return false;
        }
    }
    assert(h@.subrange(at as int, at + n@.len()) == n@);
    true
}

/// Whether a text has another one in it.
pub fn contains(hay: &str, needle: &str) -> (b: bool)
    ensures
        b == contains_text(hay@, needle@),
{
    let h: Vec<char> = chars_of(hay);
    let n: Vec<char> = chars_of(needle);
    if n.len() > h.len() {
        return false;
    }
    let last: usize = h.len() - n.len();
    for at in 0..last
        invariant
            h@ == hay@,
            n@ == needle@,
            last == h@.len() - n@.len(),
            forall|k: int| 0 <= k < at ==> !occurs_at(hay@, needle@, k),
    {
        if matches_at(&h, &n, at) {
            return true;
        }
    }
    matches_at(&h, &n, last)
}

} // verus!
