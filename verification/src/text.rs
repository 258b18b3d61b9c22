use vstd::prelude::*;

verus! {

broadcast use vstd::string::axiom_spec_iter;

/// The characters of `s`.
pub fn chars_of(s: &str) -> (chars: Vec<char>)
    ensures
        chars@ == s@,
{
    let mut chars = Vec::new();
    for c in it: s.chars()
        invariant
            chars.len() == it.index(),
            forall|i: int| 0 <= i < chars.len() ==> chars@[i] == it.seq()[i],
    {
        chars.push(c);
    }
    assert(chars@ =~= s@);
    chars
}

/// Appends `c` to `s` by calling std's `String::push`, which vstd gives no
/// specification. Trusted, not proved: the characters of `s` afterwards are
/// those it had, followed by `c`.
#[verifier::external_body]
fn push_char(s: &mut String, c: char)
    ensures
        final(s)@ == old(s)@.push(c),
{
    s.push(c);
}

/// The characters of each string.
pub open spec fn strings(v: Seq<String>) -> Seq<Seq<char>> {
    v.map_values(|s: String| s@)
}

/// The string made of `chars`.
pub fn string_of(chars: &[char]) -> (s: String)
    ensures
        s@ == chars@,
{
    let mut s = String::new();
    let mut i: usize = 0;
    while i < chars.len()
        invariant
            0 <= i <= chars@.len(),
            s@ == chars@.take(i as int),
        decreases chars@.len() - i,
    {
        push_char(&mut s, chars[i]);
        assert(chars@.take(i + 1) =~= chars@.take(i as int).push(chars@[i as int]));
        i = i + 1;
    }
    assert(chars@.take(i as int) =~= chars@);
    s
}


/// The views of a sequence of character vectors.
pub open spec fn views(v: Seq<Vec<char>>) -> Seq<Seq<char>> {
    v.map_values(|x: Vec<char>| x@)
}

pub proof fn lemma_views_push(s: Seq<Vec<char>>, x: Vec<char>)
    ensures
        views(s.push(x)) == views(s).push(x@),
{
    assert(views(s.push(x)) =~= views(s).push(x@));
}

pub proof fn lemma_views_set(s: Seq<Vec<char>>, i: int, x: Vec<char>)
    requires
        0 <= i < s.len(),
    ensures
        views(s.update(i, x)) == views(s).update(i, x@),
{
    assert(views(s.update(i, x)) =~= views(s).update(i, x@));
}

/// `s` cut at every `sep`: `n` separators give `n + 1` pieces, empty ones
/// included (`str::split` with a character pattern).
pub open spec fn split_spec(s: Seq<char>, sep: char) -> Seq<Seq<char>>
    decreases s.len(),
{
    if s.len() == 0 {
        seq![Seq::<char>::empty()]
    } else {
        let pieces = split_spec(s.drop_last(), sep);
        if s.last() == sep {
            pieces.push(Seq::<char>::empty())
        } else {
            pieces.update(pieces.len() - 1, pieces.last().push(s.last()))
        }
    }
}

pub proof fn lemma_split_nonempty(s: Seq<char>, sep: char)
    ensures
        split_spec(s, sep).len() >= 1,
    decreases s.len(),
{
    if s.len() > 0 {
        lemma_split_nonempty(s.drop_last(), sep);
    }
}

/// No piece of a split holds the separator.
pub proof fn lemma_split_pieces_free_of_sep(s: Seq<char>, sep: char)
    ensures
        forall|i: int|
            0 <= i < split_spec(s, sep).len() ==> !(#[trigger] split_spec(s, sep)[i]).contains(sep),
    decreases s.len(),
{
    if s.len() > 0 {
        lemma_split_pieces_free_of_sep(s.drop_last(), sep);
        lemma_split_nonempty(s.drop_last(), sep);
        let pieces = split_spec(s.drop_last(), sep);
        if s.last() != sep {
            let grown = pieces.last().push(s.last());
            assert(!grown.contains(sep)) by {
                if grown.contains(sep) {
                    let k = choose|k: int| 0 <= k < grown.len() && grown[k] == sep;
                    assert(pieces.last()[k] == sep);
                }
            }
        }
    }
}

/// Appending separator-free text to a string only extends its last piece.
pub proof fn lemma_split_append_plain(a: Seq<char>, b: Seq<char>, sep: char)
    requires
        !b.contains(sep),
    ensures
        split_spec(a + b, sep) == split_spec(a, sep).update(
            split_spec(a, sep).len() - 1,
            split_spec(a, sep).last() + b,
        ),
    decreases b.len(),
{
    lemma_split_nonempty(a, sep);
    if b.len() == 0 {
        assert(a + b =~= a);
        assert(split_spec(a, sep).last() + b =~= split_spec(a, sep).last());
        assert(split_spec(a, sep).update(split_spec(a, sep).len() - 1, split_spec(a, sep).last())
            =~= split_spec(a, sep));
    } else {
        let b0 = b.drop_last();
        assert(!b0.contains(sep)) by {
            if b0.contains(sep) {
                let k = choose|k: int| 0 <= k < b0.len() && b0[k] == sep;
                assert(b[k] == sep);
            }
        }
        assert(b.last() != sep) by {
            assert(b[b.len() - 1] == b.last());
        }
        lemma_split_append_plain(a, b0, sep);
        assert((a + b).drop_last() =~= a + b0);
        assert((a + b).last() == b.last());
        let pa = split_spec(a, sep);
        let r = split_spec(a + b0, sep);
        assert(r == pa.update(pa.len() - 1, pa.last() + b0));
        assert(r.len() == pa.len());
        assert(r.last() == pa.last() + b0);
        assert((pa.last() + b0).push(b.last()) =~= pa.last() + b);
        assert(split_spec(a + b, sep) == r.update(r.len() - 1, r.last().push(b.last())));
        assert(split_spec(a + b, sep) =~= pa.update(pa.len() - 1, pa.last() + b));
    }
}

/// The pieces of `parts` glued together with `sep` between neighbours.
pub open spec fn join_spec(parts: Seq<Seq<char>>, sep: char) -> Seq<char>
    decreases parts.len(),
{
    if parts.len() == 0 {
        Seq::<char>::empty()
    } else if parts.len() == 1 {
        parts[0]
    } else {
        join_spec(parts.drop_last(), sep).push(sep) + parts.last()
    }
}

/// Splitting what a join glued together gives back the parts, when there is
/// at least one part and no part holds the separator.
pub proof fn lemma_split_join(parts: Seq<Seq<char>>, sep: char)
    requires
        parts.len() >= 1,
        forall|i: int| 0 <= i < parts.len() ==> !(#[trigger] parts[i]).contains(sep),
    ensures
        split_spec(join_spec(parts, sep), sep) == parts,
    decreases parts.len(),
{
    if parts.len() == 1 {
        lemma_split_append_plain(Seq::<char>::empty(), parts[0], sep);
        assert(Seq::<char>::empty() + parts[0] =~= parts[0]);
        assert(seq![Seq::<char>::empty()].update(0, Seq::<char>::empty() + parts[0]) =~= parts);
    } else {
        let init = parts.drop_last();
        lemma_split_join(init, sep);
        let front = join_spec(init, sep).push(sep);
        assert(front.drop_last() =~= join_spec(init, sep));
        assert(split_spec(front, sep) == init.push(Seq::<char>::empty()));
        assert(!parts.last().contains(sep)) by {
            assert(parts[parts.len() - 1] == parts.last());
        }
        lemma_split_append_plain(front, parts.last(), sep);
        assert(Seq::<char>::empty() + parts.last() =~= parts.last());
        assert(init.push(Seq::<char>::empty()).update(init.len() as int, parts.last()) =~= parts);
    }
}

/// A copy of `s[from..to]`.
pub fn copy_range(s: &[char], from: usize, to: usize) -> (piece: Vec<char>)
    requires
        from <= to <= s@.len(),
    ensures
        piece@ == s@.subrange(from as int, to as int),
        from == 0 && to == s@.len() ==> piece@ == s@,
{
    let mut piece = Vec::new();
    let mut i = from;
    while i < to
        invariant
            from <= i <= to <= s@.len(),
            piece@ == s@.subrange(from as int, i as int),
        decreases to - i,
    {
        piece.push(s[i]);
        assert(s@.subrange(from as int, i + 1) =~= s@.subrange(from as int, i as int).push(
            s@[i as int],
        ));
        i = i + 1;
    }
    assert(from == 0 && to == s@.len() ==> s@.subrange(from as int, to as int) =~= s@);
    piece
}

pub fn chars_equal(a: &[char], b: &[char]) -> (same: bool)
    ensures
        same == (a@ == b@),
{
    if a.len() != b.len() {
        return false;
    }
    let mut i: usize = 0;
    while i < a.len()
        invariant
            a@.len() == b@.len(),
            0 <= i <= a@.len(),
            forall|j: int| 0 <= j < i ==> a@[j] == b@[j],
        decreases a@.len() - i,
    {
        if a[i] != b[i] {
            return false;
        }
        i = i + 1;
    }
    assert(a@ =~= b@);
    true
}

pub fn split_chars(s: &[char], sep: char) -> (pieces: Vec<Vec<char>>)
    ensures
        views(pieces@) == split_spec(s@, sep),
{
    let mut pieces: Vec<Vec<char>> = Vec::new();
    let mut current: Vec<char> = Vec::new();
    let mut i: usize = 0;
    assert(s@.take(0) =~= Seq::<char>::empty());
    assert(views(pieces@).push(current@) =~= split_spec(s@.take(0), sep));
    while i < s.len()
        invariant
            0 <= i <= s@.len(),
            views(pieces@).push(current@) == split_spec(s@.take(i as int), sep),
        decreases s@.len() - i,
    {
        assert(s@.take(i + 1).drop_last() =~= s@.take(i as int));
        assert(s@.take(i + 1).last() == s@[i as int]);
        if s[i] == sep {
            let done = current;
            pieces.push(done);
            current = Vec::new();
            assert(views(pieces@).push(current@) =~= split_spec(s@.take(i + 1), sep));
        } else {
            current.push(s[i]);
            assert(views(pieces@).push(current@) =~= split_spec(s@.take(i + 1), sep));
        }
        i = i + 1;
    }
    assert(s@.take(i as int) =~= s@);
    pieces.push(current);
    assert(views(pieces@) =~= split_spec(s@, sep));
    pieces
}

pub fn join_chars(parts: &Vec<Vec<char>>, sep: char) -> (joined: Vec<char>)
    ensures
        joined@ == join_spec(views(parts@), sep),
{
    let mut joined: Vec<char> = Vec::new();
    let mut i: usize = 0;
    while i < parts.len()
        invariant
            0 <= i <= parts@.len(),
            joined@ == join_spec(views(parts@).take(i as int), sep),
        decreases parts@.len() - i,
    {
        let ghost before = joined@;
        assert(views(parts@).take(i + 1).drop_last() =~= views(parts@).take(i as int));
        if i > 0 {
            joined.push(sep);
        }
        let part = &parts[i];
        let mut k: usize = 0;
        while k < part.len()
            invariant
                0 <= k <= part@.len(),
                part@ == parts@[i as int]@,
                joined@ == (if i > 0 {
                    before.push(sep)
                } else {
                    before
                }) + part@.take(k as int),
            decreases part@.len() - k,
        {
            joined.push(part[k]);
            assert(part@.take(k + 1) =~= part@.take(k as int).push(part@[k as int]));
            k = k + 1;
        }
        assert(part@.take(k as int) =~= part@);
        if i == 0 {
            assert(before =~= Seq::<char>::empty());
            assert(joined@ =~= join_spec(views(parts@).take(i + 1), sep));
        } else {
            assert(joined@ =~= join_spec(views(parts@).take(i + 1), sep));
        }
        i = i + 1;
    }
    assert(views(parts@).take(i as int) =~= views(parts@));
    joined
}


/// Whether the characters of `s` spell `text`.
pub fn chars_are(s: &[char], text: &str) -> (same: bool)
    ensures
        same == (s@ == text@),
{
    let text = chars_of(text);
    chars_equal(s, text.as_slice())
}

/// The characters that `char::is_whitespace` accepts (Unicode `White_Space`).
pub open spec fn is_white_space(c: char) -> bool {
    let u = c as u32;
    ||| 0x09 <= u <= 0x0D
    ||| u == 0x20
    ||| u == 0x85
    ||| u == 0xA0
    ||| u == 0x1680
    ||| 0x2000 <= u <= 0x200A
    ||| u == 0x2028
    ||| u == 0x2029
    ||| u == 0x202F
    ||| u == 0x205F
    ||| u == 0x3000
}

/// A set of characters that can be trimmed away.
#[derive(Clone, Copy)]
pub enum CharClass {
    WhiteSpace,
    Only(char),
}

pub open spec fn in_class(class: CharClass, c: char) -> bool {
    match class {
        CharClass::WhiteSpace => is_white_space(c),
        CharClass::Only(d) => c == d,
    }
}

pub fn is_in_class(class: CharClass, c: char) -> (member: bool)
    ensures
        member == in_class(class, c),
{
    match class {
        CharClass::WhiteSpace => {
            let u = c as u32;
            (0x09 <= u && u <= 0x0D) || u == 0x20 || u == 0x85 || u == 0xA0 || u == 0x1680 || (
            0x2000 <= u && u <= 0x200A) || u == 0x2028 || u == 0x2029 || u == 0x202F || u
                == 0x205F || u == 0x3000
        },
        CharClass::Only(d) => c == d,
    }
}

/// `s` without its leading characters of `class`.
pub open spec fn trim_start_spec(s: Seq<char>, class: CharClass) -> Seq<char>
    decreases s.len(),
{
    if s.len() > 0 && in_class(class, s[0]) {
        trim_start_spec(s.skip(1), class)
    } else {
        s
    }
}

/// `s` without its trailing characters of `class`.
pub open spec fn trim_end_spec(s: Seq<char>, class: CharClass) -> Seq<char>
    decreases s.len(),
{
    if s.len() > 0 && in_class(class, s.last()) {
        trim_end_spec(s.drop_last(), class)
    } else {
        s
    }
}

/// `s` without the characters of `class` at either end (`str::trim` for
/// white space, `str::trim_matches` for one character).
pub open spec fn trim_spec(s: Seq<char>, class: CharClass) -> Seq<char> {
    trim_end_spec(trim_start_spec(s, class), class)
}

pub fn trim_start(s: &[char], class: CharClass) -> (trimmed: Vec<char>)
    ensures
        trimmed@ == trim_start_spec(s@, class),
{
    let mut i: usize = 0;
    assert(s@.subrange(0, s@.len() as int) =~= s@);
    while i < s.len() && is_in_class(class, s[i])
        invariant
            0 <= i <= s@.len(),
            trim_start_spec(s@, class) == trim_start_spec(s@.subrange(i as int, s@.len() as int), class),
        decreases s@.len() - i,
    {
        assert(s@.subrange(i as int, s@.len() as int).skip(1) =~= s@.subrange(i + 1, s@.len() as int));
        i = i + 1;
    }
    copy_range(s, i, s.len())
}

pub fn trim(s: &[char], class: CharClass) -> (trimmed: Vec<char>)
    ensures
        trimmed@ == trim_spec(s@, class),
{
    let front = trim_start(s, class);
    let mut j: usize = front.len();
    assert(front@.subrange(0, front@.len() as int) =~= front@);
    while j > 0 && is_in_class(class, front[j - 1])
        invariant
            0 <= j <= front@.len(),
            trim_end_spec(front@, class) == trim_end_spec(front@.subrange(0, j as int), class),
        decreases j,
    {
        assert(front@.subrange(0, j as int).drop_last() =~= front@.subrange(0, j - 1));
        j = j - 1;
    }
    copy_range(front.as_slice(), 0, j)
}

pub proof fn lemma_trim_len(s: Seq<char>, class: CharClass)
    ensures
        trim_spec(s, class).len() <= s.len(),
{
    lemma_trim_start_len(s, class);
    lemma_trim_end_len(trim_start_spec(s, class), class);
}

pub proof fn lemma_trim_start_len(s: Seq<char>, class: CharClass)
    ensures
        trim_start_spec(s, class).len() <= s.len(),
    decreases s.len(),
{
    if s.len() > 0 && in_class(class, s[0]) {
        lemma_trim_start_len(s.skip(1), class);
    }
}

pub proof fn lemma_trim_end_len(s: Seq<char>, class: CharClass)
    ensures
        trim_end_spec(s, class).len() <= s.len(),
    decreases s.len(),
{
    if s.len() > 0 && in_class(class, s.last()) {
        lemma_trim_end_len(s.drop_last(), class);
    }
}

/// Every piece of a split is no longer than what was split.
pub proof fn lemma_split_parts_short(s: Seq<char>, sep: char)
    ensures
        forall|i: int|
            0 <= i < split_spec(s, sep).len() ==> (#[trigger] split_spec(s, sep)[i]).len() <= s.len(),
    decreases s.len(),
{
    if s.len() > 0 {
        lemma_split_parts_short(s.drop_last(), sep);
        lemma_split_nonempty(s.drop_last(), sep);
    }
}

/// Position of the first `c` in `s`.
pub open spec fn first_index(s: Seq<char>, c: char) -> Option<int>
    decreases s.len(),
{
    if s.len() == 0 {
        None
    } else if s[0] == c {
        Some(0)
    } else {
        match first_index(s.skip(1), c) {
            Some(k) => Some(k + 1),
            None => None,
        }
    }
}

pub fn find_char(s: &[char], c: char) -> (found: Option<usize>)
    ensures
        found matches Some(i) ==> first_index(s@, c) == Some(i as int) && i < s@.len() && s@[i as int]
            == c,
        found is None ==> first_index(s@, c) is None,
{
    let mut i: usize = 0;
    assert(s@.skip(0) =~= s@);
    while i < s.len()
        invariant
            0 <= i <= s@.len(),
            first_index(s@, c) == match first_index(s@.skip(i as int), c) {
                Some(k) => Some(k + i),
                None => None,
            },
        decreases s@.len() - i,
    {
        assert(s@.skip(i as int)[0] == s@[i as int]);
        if s[i] == c {
            assert(first_index(s@.skip(i as int), c) == Some(0int));
            return Some(i);
        }
        assert(s@.skip(i as int).skip(1) =~= s@.skip(i + 1));
        i = i + 1;
    }
    None
}

/// The non-empty runs of non-white-space characters of `s`, in order
/// (`str::split_whitespace`).
pub open spec fn words_spec(s: Seq<char>) -> Seq<Seq<char>>
    decreases s.len(),
{
    words_from(s, Seq::empty(), Seq::empty())
}

/// Scanning `s` with the words found so far and the word being read.
pub open spec fn words_from(s: Seq<char>, done: Seq<Seq<char>>, current: Seq<char>) -> Seq<
    Seq<char>,
>
    decreases s.len(),
{
    if s.len() == 0 {
        if current.len() > 0 {
            done.push(current)
        } else {
            done
        }
    } else if is_white_space(s[0]) {
        if current.len() > 0 {
            words_from(s.skip(1), done.push(current), Seq::empty())
        } else {
            words_from(s.skip(1), done, Seq::empty())
        }
    } else {
        words_from(s.skip(1), done, current.push(s[0]))
    }
}

pub fn words(s: &[char]) -> (found: Vec<Vec<char>>)
    ensures
        views(found@) == words_spec(s@),
{
    let mut done: Vec<Vec<char>> = Vec::new();
    let mut current: Vec<char> = Vec::new();
    let mut i: usize = 0;
    assert(s@.skip(0) =~= s@);
    assert(views(done@) =~= Seq::<Seq<char>>::empty());
    while i < s.len()
        invariant
            0 <= i <= s@.len(),
            words_spec(s@) == words_from(s@.skip(i as int), views(done@), current@),
        decreases s@.len() - i,
    {
        assert(s@.skip(i as int)[0] == s@[i as int]);
        assert(s@.skip(i as int).skip(1) =~= s@.skip(i + 1));
        if is_in_class(CharClass::WhiteSpace, s[i]) {
            if current.len() > 0 {
                proof {
                    lemma_views_push(done@, current);
                }
                done.push(current);
            }
            current = Vec::new();
            assert(current@ =~= Seq::<char>::empty());
        } else {
            current.push(s[i]);
        }
        i = i + 1;
    }
    if current.len() > 0 {
        proof {
            lemma_views_push(done@, current);
        }
        done.push(current);
    }
    done
}

/// Number of bytes of `c` in UTF-8.
pub open spec fn utf8_width(c: char) -> int {
    if (c as u32) < 0x80 {
        1
    } else if (c as u32) < 0x800 {
        2
    } else if (c as u32) < 0x10000 {
        3
    } else {
        4
    }
}

/// Number of bytes of `s` in UTF-8 (`str::len`).
pub open spec fn byte_len(s: Seq<char>) -> int
    decreases s.len(),
{
    if s.len() == 0 {
        0
    } else {
        byte_len(s.drop_last()) + utf8_width(s.last())
    }
}

/// `byte_len(s)`, or `cap` when that is smaller.
pub(crate) fn byte_len_upto(s: &[char], cap: usize) -> (n: usize)
    requires
        cap <= 1024,
    ensures
        n == if byte_len(s@) < cap {
            byte_len(s@)
        } else {
            cap as int
        },
{
    let mut n: usize = 0;
    let mut i: usize = 0;
    assert(s@.take(0) =~= Seq::<char>::empty());
    while i < s.len() && n < cap
        invariant
            0 <= i <= s@.len(),
            n == byte_len(s@.take(i as int)),
            n <= cap + 4,
            cap <= 1024,
        decreases s@.len() - i,
    {
        assert(s@.take(i + 1).drop_last() =~= s@.take(i as int));
        let u = s[i] as u32;
        let w: usize = if u < 0x80 {
            1
        } else if u < 0x800 {
            2
        } else if u < 0x10000 {
            3
        } else {
            4
        };
        n = n + w;
        i = i + 1;
    }
    proof {
        if i < s@.len() {
            lemma_byte_len_take_strict(s@, i as int, s@.len() as int);
        }
    }
    assert(s@.take(s@.len() as int) =~= s@);
    if n >= cap {
        cap
    } else {
        n
    }
}

/// The characters of `s` that make up its first `bytes` bytes, when
/// `bytes` falls between two characters (`&s[..bytes]`).
pub open spec fn byte_prefix(s: Seq<char>, bytes: int) -> Option<Seq<char>> {
    if exists|k: int| 0 <= k <= s.len() && byte_len(#[trigger] s.take(k)) == bytes {
        Some(s.take(choose|k: int| 0 <= k <= s.len() && byte_len(#[trigger] s.take(k)) == bytes))
    } else {
        None
    }
}

pub proof fn lemma_byte_len_take_strict(s: Seq<char>, a: int, b: int)
    requires
        0 <= a < b <= s.len(),
    ensures
        byte_len(s.take(a)) < byte_len(s.take(b)),
    decreases b - a,
{
    assert(s.take(b).drop_last() =~= s.take(b - 1));
    if a < b - 1 {
        lemma_byte_len_take_strict(s, a, b - 1);
    }
}

/// A longer byte prefix holds more characters.
pub proof fn lemma_byte_prefix_grows(s: Seq<char>, a: int, b: int)
    requires
        a < b,
        byte_prefix(s, a) is Some,
        byte_prefix(s, b) is Some,
    ensures
        byte_prefix(s, a)->0.len() < byte_prefix(s, b)->0.len(),
        byte_prefix(s, b)->0.take(byte_prefix(s, a)->0.len() as int) == byte_prefix(s, a)->0,
{
    let ka = choose|k: int| 0 <= k <= s.len() && byte_len(#[trigger] s.take(k)) == a;
    let kb = choose|k: int| 0 <= k <= s.len() && byte_len(#[trigger] s.take(k)) == b;
    if kb <= ka {
        if kb < ka {
            lemma_byte_len_take_strict(s, kb, ka);
        }
    }
    assert(s.take(kb).take(ka) =~= s.take(ka));
}

pub fn byte_prefix_of(s: &[char], bytes: usize) -> (prefix: Option<Vec<char>>)
    ensures
        match byte_prefix(s@, bytes as int) {
            Some(p) => prefix matches Some(v) && v@ == p,
            None => prefix is None,
        },
{
    let mut n: usize = 0;
    let mut i: usize = 0;
    assert(s@.take(0) =~= Seq::<char>::empty());
    while i < s.len() && n < bytes
        invariant
            0 <= i <= s@.len(),
            n == byte_len(s@.take(i as int)),
            n <= bytes,
            forall|k: int| 0 <= k < i ==> byte_len(#[trigger] s@.take(k)) < bytes,
        decreases s@.len() - i,
    {
        assert(s@.take(i + 1).drop_last() =~= s@.take(i as int));
        let u = s[i] as u32;
        let w: usize = if u < 0x80 {
            1
        } else if u < 0x800 {
            2
        } else if u < 0x10000 {
            3
        } else {
            4
        };
        assert(byte_len(s@.take(i + 1)) == n + w);
        if w > bytes - n {
            proof {
                assert forall|k: int| 0 <= k <= s@.len() implies byte_len(#[trigger] s@.take(k))
                    != bytes by {
                    if k > i + 1 {
                        lemma_byte_len_take_strict(s@, i + 1, k);
                    }
                }
            }
            return None;
        }
        n = n + w;
        i = i + 1;
    }
    if n == bytes {
        let prefix = copy_range(s, 0, i);
        proof {
            let k = choose|k: int| 0 <= k <= s@.len() && byte_len(#[trigger] s@.take(k)) == bytes;
            if k < i {
                lemma_byte_len_take_strict(s@, k, i as int);
            } else if k > i {
                lemma_byte_len_take_strict(s@, i as int, k);
            }
            assert(prefix@ =~= s@.take(i as int));
        }
        Some(prefix)
    } else {
        proof {
            assert forall|k: int| 0 <= k <= s@.len() implies byte_len(#[trigger] s@.take(k))
                != bytes by {
                if k < i {
                } else if k > i {
                    lemma_byte_len_take_strict(s@, i as int, k);
                }
            }
        }
        None
    }
}

} // verus!
