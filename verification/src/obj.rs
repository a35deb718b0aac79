//! Mesh text: the lines of a mesh file, one vertex or one face each.
//!
//! A vertex line holds the marker `v`, a space and three coordinates. A
//! face line holds the marker `f`, a space and three or four vertex numbers,
//! counted from one; what follows a `/` in a vertex number is ignored. Words
//! are separated by spaces.

use vstd::prelude::*;

verus! {

/// The byte of a space.
pub const SPACE: u8 = 32;

/// The byte of a slash.
pub const SLASH: u8 = 47;

/// The byte of a plus sign.
pub const PLUS: u8 = 43;

/// The marker of a vertex line: the byte of the letter v.
pub const VERTEX: u8 = 118;

/// The marker of a face line: the byte of the letter f.
pub const FACE: u8 = 102;

/// The byte is white space: a space, a tab, a line feed, a vertical tab, a
/// form feed or a carriage return.
pub open spec fn is_blank(b: u8) -> bool {
    b == 32 || (9 <= b && b <= 13)
}

/// The byte is a decimal digit.
pub open spec fn is_digit(b: u8) -> bool {
    48 <= b && b <= 57
}

/// Whether the byte is white space.
pub fn blank(b: u8) -> (r: bool)
    ensures
        r == is_blank(b),
{
    b == 32 || (9 <= b && b <= 13)
}

/// The marker stands at place `i` of the line, with a space behind it.
pub open spec fn marker_at(line: Seq<u8>, marker: u8, i: int) -> bool {
    0 <= i && i + 1 < line.len() && line[i] == marker && line[i + 1] == SPACE
}

/// The first place at which the marker stands with a space behind it.
pub fn find_marker(line: &[u8], marker: u8) -> (place: Option<usize>)
    ensures
        match place {
            Some(i) => marker_at(line@, marker, i as int) && forall|j: int|
                0 <= j < i ==> !marker_at(line@, marker, j),
            None => forall|j: int| !marker_at(line@, marker, j),
        },
{
    if line.len() < 2 {
        return None;
    }
    let mut i: usize = 0;
    while i < line.len() - 1
        invariant
            line.len() >= 2,
            forall|j: int| 0 <= j < i ==> !marker_at(line@, marker, j),
        decreases line.len() - i,
    {
        if line[i] == marker && line[i + 1] == SPACE {
            return Some(i);
        }
        i += 1;
    }
    None
}

/// The place of the first space, or the length where there is none.
pub open spec fn first_space(s: Seq<u8>) -> int
    decreases s.len(),
{
    if s.len() == 0 {
        0
    } else if s[0] == SPACE {
        0
    } else {
        1 + first_space(s.drop_first())
    }
}

/// The text without the white space at its two ends.
pub open spec fn trimmed(s: Seq<u8>) -> Seq<u8>
    decreases s.len(),
{
    if s.len() > 0 && is_blank(s[0]) {
        trimmed(s.drop_first())
    } else if s.len() > 0 && is_blank(s.last()) {
        trimmed(s.drop_last())
    } else {
        s
    }
}

/// The words of a text: the pieces between its spaces, each without the
/// white space at its ends, but for those that are empty then.
pub open spec fn words(s: Seq<u8>) -> Seq<Seq<u8>>
    decreases s.len(),
{
    let end = first_space(s);
    let word = trimmed(s.take(end));
    let rest = if 0 <= end < s.len() {
        words(s.skip(end + 1))
    } else {
        Seq::empty()
    };
    if word.len() > 0 {
        seq![word] + rest
    } else {
        rest
    }
}

/// The first space is where no space comes before and a space or the end
/// stands.
pub proof fn lemma_first_space(s: Seq<u8>, n: int)
    requires
        0 <= n <= s.len(),
        forall|k: int| 0 <= k < n ==> s[k] != SPACE,
        n == s.len() || s[n] == SPACE,
    ensures
        first_space(s) == n,
    decreases n,
{
    if n > 0 {
        let rest = s.drop_first();
        assert forall|k: int| 0 <= k < n - 1 implies rest[k] != SPACE by {
            assert(rest[k] == s[k + 1]);
        }
        lemma_first_space(rest, n - 1);
    }
}

/// The texts of a run of byte vectors.
pub open spec fn texts(words: Seq<Vec<u8>>) -> Seq<Seq<u8>> {
    words.map_values(|w: Vec<u8>| w@)
}

/// A copy of the bytes from place `from` up to place `to`.
pub fn copy_range(line: &[u8], from: usize, to: usize) -> (copy: Vec<u8>)
    requires
        from <= to <= line.len(),
    ensures
        copy@ == line@.subrange(from as int, to as int),
{
    let mut copy: Vec<u8> = Vec::new();
    let mut i: usize = from;
    while i < to
        invariant
            from <= i <= to <= line.len(),
            copy@ == line@.subrange(from as int, i as int),
        decreases to - i,
    {
        copy.push(line[i]);
        assert(copy@ =~= line@.subrange(from as int, i + 1));
        i += 1;
    }
    copy
}

/// The words of the line from place `from` on.
pub fn split_words(line: &[u8], from: usize) -> (found: Vec<Vec<u8>>)
    requires
        from <= line.len(),
    ensures
        texts(found@) == words(line@.skip(from as int)),
{
    let mut found: Vec<Vec<u8>> = Vec::new();
    let mut pos: usize = from;
    assert(texts(found@) =~= Seq::empty());
    loop
        invariant_except_break
            words(line@.skip(from as int)) == texts(found@) + words(line@.skip(pos as int)),
        invariant
            from <= pos <= line.len(),
        ensures
            texts(found@) == words(line@.skip(from as int)),
        decreases line.len() - pos,
    {
        let ghost tail = line@.skip(pos as int);
        let mut end: usize = pos;
        while end < line.len() && line[end] != SPACE
            invariant
                pos <= end <= line.len(),
                forall|k: int| pos <= k < end ==> line@[k] != SPACE,
            decreases line.len() - end,
        {
            end += 1;
        }
        let ghost piece = line@.subrange(pos as int, end as int);
        proof {
            assert forall|k: int| 0 <= k < end - pos implies tail[k] != SPACE by {
                assert(tail[k] == line@[pos + k]);
            }
            lemma_first_space(tail, end - pos);
            assert(tail.take(end - pos) =~= piece);
        }
        let mut a: usize = pos;
        let mut b: usize = end;
        while a < b && blank(line[a])
            invariant
                pos <= a <= b,
                b == end,
                end <= line.len(),
                trimmed(piece) == trimmed(line@.subrange(a as int, b as int)),
            decreases b - a,
        {
            proof {
                let now = line@.subrange(a as int, b as int);
                assert(now.drop_first() =~= line@.subrange(a + 1, b as int));
            }
            a += 1;
        }
        while a < b && blank(line[b - 1])
            invariant
                pos <= a <= b <= end,
                end <= line.len(),
                a < b ==> !is_blank(line@[a as int]),
                trimmed(piece) == trimmed(line@.subrange(a as int, b as int)),
            decreases b - a,
        {
            proof {
                let now = line@.subrange(a as int, b as int);
                assert(now[0] == line@[a as int]);
                assert(now.last() == line@[b - 1]);
                assert(now.drop_last() =~= line@.subrange(a as int, b - 1));
            }
            b -= 1;
        }
        let ghost word = line@.subrange(a as int, b as int);
        let ghost before = texts(found@);
        proof {
            if a < b {
                assert(word[0] == line@[a as int]);
                assert(word.last() == line@[b - 1]);
            }
            assert(trimmed(word) == word);
            assert(trimmed(piece) == word);
        }
        if a < b {
            let copy = copy_range(line, a, b);
            found.push(copy);
            assert(texts(found@) =~= before + seq![word]);
        }
        if end == line.len() {
            proof {
                assert(words(tail) =~= if word.len() > 0 {
                    seq![word]
                } else {
                    Seq::empty()
                });
                assert(texts(found@) =~= before + words(tail));
            }
            break ;
        }
        proof {
            assert(tail.skip(end - pos + 1) =~= line@.skip(end + 1));
            let rest = words(line@.skip(end + 1));
            assert(words(tail) =~= if word.len() > 0 {
                seq![word] + rest
            } else {
                rest
            });
            assert(before + words(tail) =~= texts(found@) + rest);
        }
        pos = end + 1;
    }
    found
}

/// The place of the first slash, or the length where there is none.
pub open spec fn first_slash(s: Seq<u8>) -> int
    decreases s.len(),
{
    if s.len() == 0 {
        0
    } else if s[0] == SLASH {
        0
    } else {
        1 + first_slash(s.drop_first())
    }
}

/// The first slash is where no slash comes before and a slash or the end
/// stands.
pub proof fn lemma_first_slash(s: Seq<u8>, n: int)
    requires
        0 <= n <= s.len(),
        forall|k: int| 0 <= k < n ==> s[k] != SLASH,
        n == s.len() || s[n] == SLASH,
    ensures
        first_slash(s) == n,
    decreases n,
{
    if n > 0 {
        let rest = s.drop_first();
        assert forall|k: int| 0 <= k < n - 1 implies rest[k] != SLASH by {
            assert(rest[k] == s[k + 1]);
        }
        lemma_first_slash(rest, n - 1);
    }
}

/// Every byte is a decimal digit.
pub open spec fn all_digits(s: Seq<u8>) -> bool {
    forall|i: int| 0 <= i < s.len() ==> is_digit(#[trigger] s[i])
}

/// The number that the digits write in decimal.
pub open spec fn value_of(s: Seq<u8>) -> nat
    decreases s.len(),
{
    if s.len() == 0 {
        0
    } else {
        value_of(s.drop_last()) * 10 + (s.last() - 48) as nat
    }
}

/// The number that a text writes: a plus sign or none, then one decimal
/// digit or more, for a number that the machine holds. Other texts write
/// none.
pub open spec fn number_of(s: Seq<u8>) -> Option<usize> {
    if s.len() > 0 && s[0] == PLUS {
        digits_number(s.drop_first())
    } else {
        digits_number(s)
    }
}

/// The number that one decimal digit or more write, where the machine
/// holds it.
pub open spec fn digits_number(digits: Seq<u8>) -> Option<usize> {
    if digits.len() > 0 && all_digits(digits) && value_of(digits) <= usize::MAX {
        Some(value_of(digits) as usize)
    } else {
        None
    }
}

/// The vertex number that a word of a face writes: the number before its
/// first slash.
pub open spec fn index_of(word: Seq<u8>) -> Option<usize> {
    number_of(word.take(first_slash(word)))
}

/// The digits of a text write at least what any start of them writes.
pub proof fn lemma_value_grows(s: Seq<u8>, n: int)
    requires
        0 <= n <= s.len(),
        all_digits(s),
    ensures
        value_of(s.take(n)) <= value_of(s),
    decreases s.len() - n,
{
    if n < s.len() {
        let longer = s.take(n + 1);
        assert(longer.drop_last() =~= s.take(n));
        assert(is_digit(s[n]));
        assert(longer.last() == s[n]);
        lemma_value_grows(s, n + 1);
    } else {
        assert(s.take(n) =~= s);
    }
}

/// The number that the bytes from place `from` up to place `to` write.
pub fn parse_number(text: &[u8], from: usize, to: usize) -> (number: Option<usize>)
    requires
        from <= to <= text.len(),
    ensures
        number == number_of(text@.subrange(from as int, to as int)),
{
    let ghost whole = text@.subrange(from as int, to as int);
    let mut i: usize = from;
    if i < to && text[i] == PLUS {
        i += 1;
    }
    let start: usize = i;
    let ghost digits = text@.subrange(start as int, to as int);
    proof {
        if start > from {
            assert(whole[0] == PLUS);
            assert(whole.drop_first() =~= digits);
        } else {
            assert(whole =~= digits);
            if whole.len() > 0 {
                assert(whole[0] == text@[from as int]);
            }
        }
    }
    assert(number_of(whole) == digits_number(digits));
    if start == to {
        return None;
    }
    let mut value: usize = 0;
    while i < to
        invariant
            start <= i <= to <= text.len(),
            start < to,
            whole == text@.subrange(from as int, to as int),
            number_of(whole) == digits_number(digits),
            digits == text@.subrange(start as int, to as int),
            all_digits(digits.take(i - start)),
            value == value_of(digits.take(i - start)),
        decreases to - i,
    {
        let b = text[i];
        let ghost seen = digits.take(i - start);
        let ghost next = digits.take(i - start + 1);
        proof {
            assert(digits[i - start] == b);
            assert(next.drop_last() =~= seen);
            assert(next.last() == b);
        }
        if b < 48 || b > 57 {
            assert(!is_digit(digits[i - start]));
            assert(!all_digits(digits));
            return None;
        }
        let d: usize = (b - 48) as usize;
        if value > (usize::MAX - d) / 10 {
            proof {
                assert(value_of(next) == value * 10 + d);
                assert(value * 10 + d > usize::MAX);
                if all_digits(digits) {
                    lemma_value_grows(digits, i - start + 1);
                    assert(value_of(digits) > usize::MAX);
                }
            }
            return None;
        }
        value = value * 10 + d;
        proof {
            assert forall|k: int| 0 <= k < next.len() implies is_digit(#[trigger] next[k]) by {
                if k < seen.len() {
                    assert(next[k] == seen[k]);
                }
            }
        }
        i += 1;
    }
    assert(digits.take(to - start) =~= digits);
    Some(value)
}

/// The vertex number that a word of a face writes.
pub fn parse_index(word: &Vec<u8>) -> (number: Option<usize>)
    ensures
        number == index_of(word@),
{
    let mut end: usize = 0;
    while end < word.len() && word[end] != SLASH
        invariant
            end <= word.len(),
            forall|k: int| 0 <= k < end ==> word@[k] != SLASH,
        decreases word.len() - end,
    {
        end += 1;
    }
    let text = word.as_slice();
    proof {
        lemma_first_slash(word@, end as int);
        assert(word@.take(end as int) =~= text@.subrange(0, end as int));
    }
    parse_number(text, 0, end)
}

/// What went wrong with a line of a mesh.
#[derive(Debug, Clone, Copy, PartialEq, Eq, Structural)]
pub enum ObjError {
    /// A vertex line holds fewer than three coordinates.
    MissingCoordinate,
    /// A word of a face line writes no vertex number.
    BadIndex,
    /// A face line holds neither three nor four vertex numbers.
    BadFace,
    /// A vertex number is zero, or beyond the vertices read so far.
    OutOfRange,
}

/// What a line of a mesh holds.
#[derive(Debug)]
pub enum LineItem {
    /// A vertex, with the texts of its three coordinates.
    Vertex(Vec<u8>, Vec<u8>, Vec<u8>),
    /// A triangle, with its three vertex numbers, counted from one.
    Triangle(usize, usize, usize),
    /// A quad, with its four vertex numbers, counted from one.
    Quad(usize, usize, usize, usize),
}

/// What a line of a mesh holds, as plain values.
pub enum Item {
    Vertex(Seq<u8>, Seq<u8>, Seq<u8>),
    Triangle(usize, usize, usize),
    Quad(usize, usize, usize, usize),
}

impl View for LineItem {
    type V = Item;

    open spec fn view(&self) -> Item {
        match *self {
            LineItem::Vertex(x, y, z) => Item::Vertex(x@, y@, z@),
            LineItem::Triangle(a, b, c) => Item::Triangle(a, b, c),
            LineItem::Quad(a, b, c, d) => Item::Quad(a, b, c, d),
        }
    }
}

/// The marker stands somewhere in the line with a space behind it.
pub open spec fn has_marker(line: Seq<u8>, marker: u8) -> bool {
    exists|i: int| marker_at(line, marker, i)
}

/// The words behind the first marker of the line.
pub open spec fn words_behind(line: Seq<u8>, marker: u8) -> Seq<Seq<u8>> {
    let place = choose|i: int|
        marker_at(line, marker, i) && forall|j: int| 0 <= j < i ==> !marker_at(line, marker, j);
    words(line.skip(place + 2))
}

/// What a face with the given words holds.
pub open spec fn face_of(words: Seq<Seq<u8>>) -> Result<Option<Item>, ObjError> {
    if exists|i: int| 0 <= i < words.len() && index_of(#[trigger] words[i]).is_none() {
        Err(ObjError::BadIndex)
    } else if words.len() == 3 {
        Ok(
            Some(
                Item::Triangle(
                    index_of(words[0]).unwrap(),
                    index_of(words[1]).unwrap(),
                    index_of(words[2]).unwrap(),
                ),
            ),
        )
    } else if words.len() == 4 {
        Ok(
            Some(
                Item::Quad(
                    index_of(words[0]).unwrap(),
                    index_of(words[1]).unwrap(),
                    index_of(words[2]).unwrap(),
                    index_of(words[3]).unwrap(),
                ),
            ),
        )
    } else {
        Err(ObjError::BadFace)
    }
}

/// What a line holds. A line with the marker `v` holds a vertex: its first
/// three words behind the marker are the coordinates. Else a line with the
/// marker `f` holds a face: each word behind the marker writes a vertex
/// number, three for a triangle and four for a quad. Any other line holds
/// nothing.
pub open spec fn item_of(line: Seq<u8>) -> Result<Option<Item>, ObjError> {
    if has_marker(line, VERTEX) {
        vertex_of(words_behind(line, VERTEX))
    } else if has_marker(line, FACE) {
        face_of(words_behind(line, FACE))
    } else {
        Ok(None)
    }
}

/// The parsed line stands for what the line holds.
pub open spec fn parsed_as(
    parsed: Result<Option<LineItem>, ObjError>,
    held: Result<Option<Item>, ObjError>,
) -> bool {
    match (parsed, held) {
        (Ok(Some(item)), Ok(Some(plain))) => item@ == plain,
        (Ok(None), Ok(None)) => true,
        (Err(e), Err(f)) => e == f,
        _ => false,
    }
}

/// The first place of a marker is the only place with no marker before it.
pub proof fn lemma_marker_place(line: Seq<u8>, marker: u8, place: int)
    requires
        marker_at(line, marker, place),
        forall|j: int| 0 <= j < place ==> !marker_at(line, marker, j),
    ensures
        has_marker(line, marker),
        words_behind(line, marker) == words(line.skip(place + 2)),
{
    let chosen = choose|i: int|
        marker_at(line, marker, i) && forall|j: int| 0 <= j < i ==> !marker_at(line, marker, j);
    if chosen < place {
        assert(!marker_at(line, marker, chosen));
    } else if place < chosen {
        assert(!marker_at(line, marker, place));
    }
}

/// What a vertex with the given words behind its marker holds.
pub open spec fn vertex_of(words: Seq<Seq<u8>>) -> Result<Option<Item>, ObjError> {
    if words.len() >= 3 {
        Ok(Some(Item::Vertex(words[0], words[1], words[2])))
    } else {
        Err(ObjError::MissingCoordinate)
    }
}

/// Reads a vertex from the words behind its marker.
pub fn parse_vertex(words: Vec<Vec<u8>>) -> (parsed: Result<Option<LineItem>, ObjError>)
    ensures
        parsed_as(parsed, vertex_of(texts(words@))),
{
    let mut words = words;
    let ghost all = words@;
    if words.len() < 3 {
        return Err(ObjError::MissingCoordinate);
    }
    let z = words.remove(2);
    let y = words.remove(1);
    let x = words.remove(0);
    proof {
        let found = texts(all);
        assert(found[0] == all[0]@ && found[1] == all[1]@ && found[2] == all[2]@);
    }
    Ok(Some(LineItem::Vertex(x, y, z)))
}

/// Reads a face from the words behind its marker.
pub fn parse_face(words: &Vec<Vec<u8>>) -> (parsed: Result<Option<LineItem>, ObjError>)
    ensures
        parsed_as(parsed, face_of(texts(words@))),
{
    let ghost found = texts(words@);
    let mut numbers: Vec<usize> = Vec::new();
    let mut i: usize = 0;
    while i < words.len()
        invariant
            i <= words.len(),
            found == texts(words@),
            numbers@.len() == i,
            forall|k: int| 0 <= k < i ==> index_of(#[trigger] found[k]) == Some(numbers@[k]),
        decreases words.len() - i,
    {
        assert(found[i as int] == words@[i as int]@);
        match parse_index(&words[i]) {
            Some(number) => {
                numbers.push(number);
            },
            None => {
                assert(index_of(found[i as int]).is_none());
                return Err(ObjError::BadIndex);
            },
        }
        i += 1;
    }
    if numbers.len() == 3 {
        Ok(Some(LineItem::Triangle(numbers[0], numbers[1], numbers[2])))
    } else if numbers.len() == 4 {
        Ok(Some(LineItem::Quad(numbers[0], numbers[1], numbers[2], numbers[3])))
    } else {
        Err(ObjError::BadFace)
    }
}

/// Reads one line of a mesh.
pub fn parse_line(line: &[u8]) -> (parsed: Result<Option<LineItem>, ObjError>)
    ensures
        parsed_as(parsed, item_of(line@)),
{
    let length: usize = line.len();
    match find_marker(line, VERTEX) {
        Some(place) => {
            proof {
                lemma_marker_place(line@, VERTEX, place as int);
            }
            return parse_vertex(split_words(line, place + 2));
        },
        None => {
            assert(!has_marker(line@, VERTEX));
        },
    }
    match find_marker(line, FACE) {
        Some(place) => {
            proof {
                lemma_marker_place(line@, FACE, place as int);
            }
            let words = split_words(line, place + 2);
            parse_face(&words)
        },
        None => {
            assert(!has_marker(line@, FACE));
            Ok(None)
        },
    }
}

/// The triangles of an item, by the places of their corners among the
/// vertices read so far, counted from zero. A triangle is itself; a quad
/// is cut along the diagonal from its first corner into two triangles that
/// share it; a vertex has none.
pub open spec fn faces_of(item: Item, vertices: usize) -> Result<
    Seq<(usize, usize, usize)>,
    ObjError,
> {
    match item {
        Item::Vertex(_, _, _) => Ok(Seq::empty()),
        Item::Triangle(a, b, c) => if 1 <= a <= vertices && 1 <= b <= vertices && 1 <= c
            <= vertices {
            Ok(seq![((a - 1) as usize, (b - 1) as usize, (c - 1) as usize)])
        } else {
            Err(ObjError::OutOfRange)
        },
        Item::Quad(a, b, c, d) => if 1 <= a <= vertices && 1 <= b <= vertices && 1 <= c
            <= vertices && 1 <= d <= vertices {
            Ok(
                seq![
                    ((a - 1) as usize, (b - 1) as usize, (c - 1) as usize),
                    ((a - 1) as usize, (c - 1) as usize, (d - 1) as usize),
                ],
            )
        } else {
            Err(ObjError::OutOfRange)
        },
    }
}

/// The triangles of an item, given how many vertices were read so far.
/// Every corner of every triangle is the place of one of these vertices.
pub fn triangles_of(item: &LineItem, vertices: usize) -> (faces: Result<
    Vec<(usize, usize, usize)>,
    ObjError,
>)
    ensures
        match (faces, faces_of(item@, vertices)) {
            (Ok(found), Ok(plain)) => found@ == plain,
            (Err(e), Err(f)) => e == f,
            _ => false,
        },
        match faces {
            Ok(found) => forall|i: int|
                0 <= i < found@.len() ==> (#[trigger] found@[i]).0 < vertices && found@[i].1
                    < vertices && found@[i].2 < vertices,
            Err(e) => e == ObjError::OutOfRange,
        },
{
    let mut found: Vec<(usize, usize, usize)> = Vec::new();
    match item {
        LineItem::Vertex(_, _, _) => {},
        LineItem::Triangle(a, b, c) => {
            let (a, b, c) = (*a, *b, *c);
            if a < 1 || a > vertices || b < 1 || b > vertices || c < 1 || c > vertices {
                return Err(ObjError::OutOfRange);
            }
            found.push((a - 1, b - 1, c - 1));
        },
        LineItem::Quad(a, b, c, d) => {
            let (a, b, c, d) = (*a, *b, *c, *d);
            if a < 1 || a > vertices || b < 1 || b > vertices || c < 1 || c > vertices || d < 1
                || d > vertices {
                return Err(ObjError::OutOfRange);
            }
            found.push((a - 1, b - 1, c - 1));
            found.push((a - 1, c - 1, d - 1));
        },
    }
    assert(found@ =~= faces_of(item@, vertices).unwrap());
    Ok(found)
}

} // verus!
