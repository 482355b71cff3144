//! The text form of rectangles: four numbers `left,top,right,bottom` in
//! raster columns and rows for each rectangle, rectangles set apart by `;`.

use vstd::prelude::*;

verus! {

/// The byte is a decimal digit.
pub open spec fn is_digit(b: u8) -> bool {
    48 <= b <= 57
}

/// The number that a run of decimal digits stands for.
pub open spec fn digits_value(digits: Seq<u8>) -> int
    decreases digits.len(),
{
    if digits.len() == 0 {
        0
    } else {
        digits_value(digits.drop_last()) * 10 + (digits.last() - 48)
    }
}

/// The text is a number: one decimal digit or more, no sign, no blank, and
/// no greater than the greatest `usize`.
pub open spec fn is_number(text: Seq<u8>) -> bool {
    &&& text.len() > 0
    &&& forall|i: int| 0 <= i < text.len() ==> is_digit(#[trigger] text[i])
    &&& digits_value(text) <= usize::MAX
}

/// The pieces of `text` between the separators `sep`. A text without a
/// separator is one piece; a separator at either end sets off an empty
/// piece.
pub open spec fn split(text: Seq<u8>, sep: u8) -> Seq<Seq<u8>>
    decreases text.len(),
{
    if text.len() == 0 {
        seq![Seq::empty()]
    } else {
        let rest = split(text.drop_last(), sep);
        if text.last() == sep {
            rest.push(Seq::empty())
        } else {
            rest.drop_last().push(rest.last().push(text.last()))
        }
    }
}

/// The rectangle that a text stands for: four numbers set apart by commas.
pub open spec fn rect_of_text(text: Seq<u8>) -> Option<(usize, usize, usize, usize)> {
    let parts = split(text, 44);
    if parts.len() == 4 && is_number(parts[0]) && is_number(parts[1]) && is_number(parts[2])
        && is_number(parts[3]) {
        Some(
            (
                digits_value(parts[0]) as usize,
                digits_value(parts[1]) as usize,
                digits_value(parts[2]) as usize,
                digits_value(parts[3]) as usize,
            ),
        )
    } else {
        None
    }
}

/// The rectangles that a text stands for: one or more rectangles set apart
/// by semicolons.
pub open spec fn rects_of_text(text: Seq<u8>) -> Option<Seq<(usize, usize, usize, usize)>> {
    let parts = split(text, 59);
    if forall|i: int| 0 <= i < parts.len() ==> rect_of_text(#[trigger] parts[i]).is_some() {
        Some(Seq::new(parts.len(), |i: int| rect_of_text(parts[i]).unwrap()))
    } else {
        None
    }
}

/// The views of the pieces.
pub open spec fn piece_views(pieces: Seq<Vec<u8>>) -> Seq<Seq<u8>> {
    pieces.map_values(|p: Vec<u8>| p@)
}

proof fn lemma_split_not_empty(text: Seq<u8>, sep: u8)
    ensures
        split(text, sep).len() >= 1,
    decreases text.len(),
{
    if text.len() > 0 {
        lemma_split_not_empty(text.drop_last(), sep);
    }
}

/// A run of digits stands for no less than any of its beginnings.
proof fn lemma_value_grows(digits: Seq<u8>, i: int)
    requires
        0 <= i <= digits.len(),
        forall|k: int| 0 <= k < digits.len() ==> is_digit(#[trigger] digits[k]),
    ensures
        0 <= digits_value(digits.take(i)) <= digits_value(digits),
    decreases digits.len() - i,
{
    if i == digits.len() {
        assert(digits.take(i) =~= digits);
        lemma_value_nonnegative(digits);
    } else {
        lemma_value_grows(digits, i + 1);
        assert(digits.take(i + 1).drop_last() =~= digits.take(i));
        assert(is_digit(digits[i]));
        lemma_value_nonnegative(digits.take(i));
    }
}

proof fn lemma_value_nonnegative(digits: Seq<u8>)
    requires
        forall|k: int| 0 <= k < digits.len() ==> is_digit(#[trigger] digits[k]),
    ensures
        0 <= digits_value(digits),
    decreases digits.len(),
{
    if digits.len() > 0 {
        assert(is_digit(digits[digits.len() - 1]));
        lemma_value_nonnegative(digits.drop_last());
    }
}

/// The pieces of `text` between the separators `sep`.
pub fn split_bytes(text: &[u8], sep: u8) -> (pieces: Vec<Vec<u8>>)
    ensures
        piece_views(pieces@) == split(text@, sep),
{
    let mut pieces: Vec<Vec<u8>> = Vec::new();
    let mut piece: Vec<u8> = Vec::new();
    let mut i: usize = 0;
    proof {
        assert(text@.take(0) =~= Seq::<u8>::empty());
        assert(piece_views(pieces@).push(piece@) =~= split(text@.take(0), sep));
    }
    while i < text.len()
        invariant
            i <= text@.len(),
            piece_views(pieces@).push(piece@) == split(text@.take(i as int), sep),
        decreases text@.len() - i,
    {
        let b: u8 = text[i];
        let ghost before = split(text@.take(i as int), sep);
        proof {
            assert(text@.take(i + 1).drop_last() =~= text@.take(i as int));
            assert(text@.take(i + 1).last() == b);
            assert(before.last() == piece@);
            assert(before.drop_last() =~= piece_views(pieces@));
        }
        if b == sep {
            let ghost earlier = pieces@;
            pieces.push(piece);
            piece = Vec::new();
            proof {
                assert(piece_views(pieces@) =~= before);
            }
        } else {
            piece.push(b);
        }
        proof {
            assert(piece_views(pieces@).push(piece@) =~= split(text@.take(i + 1), sep));
        }
        i += 1;
    }
    let ghost earlier = pieces@;
    let ghost last = piece@;
    pieces.push(piece);
    proof {
        assert(text@.take(text@.len() as int) =~= text@);
        assert(piece_views(pieces@) =~= piece_views(earlier).push(last));
    }
    pieces
}

/// The number that `text` stands for, if it is one.
pub fn parse_number(text: &Vec<u8>) -> (number: Option<usize>)
    ensures
        match number {
            Some(n) => is_number(text@) && n == digits_value(text@),
            None => !is_number(text@),
        },
{
    if text.len() == 0 {
        return None;
    }
    let mut value: usize = 0;
    let mut i: usize = 0;
    proof {
        assert(text@.take(0) =~= Seq::<u8>::empty());
    }
    while i < text.len()
        invariant
            i <= text@.len(),
            forall|k: int| 0 <= k < i ==> is_digit(#[trigger] text@[k]),
            value == digits_value(text@.take(i as int)),
        decreases text@.len() - i,
    {
        let b: u8 = text[i];
        if b < 48 || b > 57 {
            proof {
                assert(!is_digit(text@[i as int]));
            }
            return None;
        }
        proof {
            assert(text@.take(i + 1).drop_last() =~= text@.take(i as int));
            assert(text@.take(i + 1).last() == b);
        }
        let next = match value.checked_mul(10) {
            Some(tens) => tens.checked_add((b - 48) as usize),
            None => None,
        };
        match next {
            Some(v) => {
                value = v;
            },
            None => {
                proof {
                    if is_number(text@) {
                        lemma_value_grows(text@, i + 1);
                    }
                }
                return None;
            },
        }
        i += 1;
    }
    proof {
        assert(text@.take(text@.len() as int) =~= text@);
    }
    Some(value)
}

/// The rectangle that `text` stands for, if it stands for one.
pub fn parse_rect(text: &Vec<u8>) -> (rect: Option<(usize, usize, usize, usize)>)
    ensures
        rect == rect_of_text(text@),
{
    let parts = split_bytes(text.as_slice(), 44);
    if parts.len() != 4 {
        return None;
    }
    proof {
        assert(piece_views(parts@)[0] == parts@[0]@);
        assert(piece_views(parts@)[1] == parts@[1]@);
        assert(piece_views(parts@)[2] == parts@[2]@);
        assert(piece_views(parts@)[3] == parts@[3]@);
    }
    let left = match parse_number(&parts[0]) {
        Some(n) => n,
        None => {
            return None;
        },
    };
    let top = match parse_number(&parts[1]) {
        Some(n) => n,
        None => {
            return None;
        },
    };
    let right = match parse_number(&parts[2]) {
        Some(n) => n,
        None => {
            return None;
        },
    };
    let bottom = match parse_number(&parts[3]) {
        Some(n) => n,
        None => {
            return None;
        },
    };
    Some((left, top, right, bottom))
}

/// The rectangles that `text` stands for, if it stands for any: `None`
/// where a piece between two semicolons is not four numbers set apart by
/// commas.
pub fn parse_rectangles(text: &[u8]) -> (rects: Option<Vec<(usize, usize, usize, usize)>>)
    ensures
        match rects {
            Some(found) => rects_of_text(text@) == Some(found@),
            None => rects_of_text(text@).is_none(),
        },
{
    let parts = split_bytes(text, 59);
    let ghost wanted = split(text@, 59);
    let mut rects: Vec<(usize, usize, usize, usize)> = Vec::new();
    let mut i: usize = 0;
    while i < parts.len()
        invariant
            i <= parts@.len(),
            wanted == split(text@, 59),
            piece_views(parts@) == wanted,
            rects@.len() == i,
            forall|k: int|
                0 <= k < i ==> rect_of_text(#[trigger] wanted[k]) == Some(rects@[k]),
        decreases parts@.len() - i,
    {
        proof {
            assert(piece_views(parts@)[i as int] == parts@[i as int]@);
        }
        match parse_rect(&parts[i]) {
            Some(rect) => {
                rects.push(rect);
            },
            None => {
                proof {
                    assert(rect_of_text(wanted[i as int]).is_none());
                }
                return None;
            },
        }
        i += 1;
    }
    proof {
        assert(rects@ =~= Seq::new(wanted.len(), |k: int| rect_of_text(wanted[k]).unwrap()));
    }
    Some(rects)
}

} // verus!
