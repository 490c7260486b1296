//! Bracket-notation field names: `key[key2][key3]`, with `[]` for a place
//! in an array.

use vstd::prelude::*;
use vstd::string::StrSliceExecFns;
use crate::error::Error;
use crate::types::{path_view, NamePart, Segment};

verus! {

/// The pieces of a name between its opening brackets, in order.  A name
/// with `k` opening brackets has `k + 1` pieces.
pub open spec fn pieces(name: Seq<char>) -> Seq<Seq<char>>
    decreases name.len(),
{
    if name.len() == 0 {
        seq![Seq::empty()]
    } else {
        let before = pieces(name.drop_last());
        if name.last() == '[' {
            before.push(Seq::empty())
        } else {
            before.update(before.len() - 1, before.last().push(name.last()))
        }
    }
}

/// The segment that a piece stands for: a lone closing bracket is a place in
/// an array; any other piece is a key, without its closing bracket if it
/// ends in one.
pub open spec fn classify(piece: Seq<char>) -> Segment {
    if piece.len() == 1 && piece[0] == ']' {
        Segment::Index
    } else if piece.len() > 0 && piece.last() == ']' {
        Segment::Key(piece.drop_last())
    } else {
        Segment::Key(piece)
    }
}

/// The path that a name stands for, outermost segment first.
pub open spec fn parsed_name(name: Seq<char>) -> Seq<Segment> {
    pieces(name).map_values(|piece: Seq<char>| classify(piece))
}

fn classify_piece(piece: &str) -> (r: NamePart)
    ensures
        r@ == classify(piece@),
{
    let len = piece.unicode_len();
    if len > 0 && piece.get_char(len - 1) == ']' {
        if len == 1 {
            NamePart::ArrayIndex
        } else {
            NamePart::MapKey(piece.substring_char(0, len - 1).to_owned())
        }
    } else {
        NamePart::MapKey(piece.to_owned())
    }
}

/// Parses a field's name into its path.  Fails with
/// `Error::ContentDisposition` exactly where the first segment is a place in
/// an array.
pub fn parse_multipart_name(name: String) -> (r: Result<Vec<NamePart>, Error>)
    ensures
        match r {
            Ok(parts) => parsed_name(name@)[0] is Key && path_view(parts@) == parsed_name(name@),
            Err(e) => parsed_name(name@)[0] is Index && e == Error::ContentDisposition,
        },
{
    let text = name.as_str();
    let len = text.unicode_len();
    let mut parts: Vec<NamePart> = Vec::new();
    let mut start: usize = 0;
    let mut i: usize = 0;
    assert(text@.take(0) =~= Seq::<char>::empty());
    while i < len
        invariant
            text@ == name@,
            len == text@.len(),
            start <= i <= len,
            pieces(text@.take(i as int)).len() == parts@.len() + 1,
            path_view(parts@) =~= parsed_name(text@.take(i as int)).drop_last(),
            pieces(text@.take(i as int)).last() == text@.subrange(start as int, i as int),
        decreases len - i,
    {
        let c = text.get_char(i);
        proof {
            let shorter = text@.take(i as int);
            let longer = text@.take(i + 1);
            assert(longer.drop_last() =~= shorter);
            assert(longer.last() == c);
            assert(text@.subrange(start as int, i as int).push(c) =~= text@.subrange(
                start as int,
                i + 1,
            ));
            assert(text@.subrange(i + 1, i + 1) =~= Seq::<char>::empty());
        }
        let ghost before = path_view(parts@);
        if c == '[' {
            let part = classify_piece(text.substring_char(start, i));
            parts.push(part);
            start = i + 1;
            proof {
                let shorter = pieces(text@.take(i as int));
                let longer = pieces(text@.take(i + 1));
                assert(longer == shorter.push(Seq::empty()));
                assert(path_view(parts@) =~= before.push(classify(shorter.last())));
                assert(parsed_name(text@.take(i + 1)).drop_last() =~= parsed_name(
                    text@.take(i as int),
                ));
                assert(parsed_name(text@.take(i as int)) =~= before.push(
                    classify(shorter.last()),
                ));
            }
        } else {
            proof {
                let shorter = pieces(text@.take(i as int));
                let longer = pieces(text@.take(i + 1));
                assert(longer == shorter.update(shorter.len() - 1, shorter.last().push(c)));
                assert(parsed_name(text@.take(i + 1)).drop_last() =~= parsed_name(
                    text@.take(i as int),
                ).drop_last());
            }
        }
        i += 1;
    }
    assert(text@.take(len as int) =~= text@);
    let part = classify_piece(text.substring_char(start, len));
    let ghost before = path_view(parts@);
    parts.push(part);
    assert(path_view(parts@) =~= before.push(classify(pieces(name@).last())));
    assert(parsed_name(name@) =~= parsed_name(name@).drop_last().push(
        classify(pieces(name@).last()),
    ));
    if parts[0].is_map() {
        Ok(parts)
    } else {
        Err(Error::ContentDisposition)
    }
}

/// The pieces put together again, with an opening bracket between each two.
pub open spec fn rejoined(parts: Seq<Seq<char>>) -> Seq<char>
    decreases parts.len(),
{
    if parts.len() == 0 {
        Seq::empty()
    } else if parts.len() == 1 {
        parts[0]
    } else {
        rejoined(parts.drop_last()) + seq!['['] + parts.last()
    }
}

/// The pieces of a name are what lies between its opening brackets: none
/// of them holds an opening bracket, and put together again with one
/// between each two they give the name.
pub proof fn lemma_pieces_split_at_brackets(name: Seq<char>)
    ensures
        pieces(name).len() >= 1,
        rejoined(pieces(name)) == name,
        forall|i: int, j: int|
            0 <= i < pieces(name).len() && 0 <= j < pieces(name)[i].len() ==> pieces(
                name,
            )[i][j] != '[',
    decreases name.len(),
{
    if name.len() == 0 {
        assert(rejoined(pieces(name)) =~= name);
    } else {
        let shorter = name.drop_last();
        let c = name.last();
        lemma_pieces_split_at_brackets(shorter);
        let before = pieces(shorter);
        let after = pieces(name);
        assert(name =~= shorter.push(c));
        if c == '[' {
            assert(after.drop_last() =~= before);
            assert(rejoined(after) =~= name);
        } else if before.len() == 1 {
            assert(rejoined(after) =~= name);
        } else {
            assert(after.drop_last() =~= before.drop_last());
            assert(rejoined(after) =~= name);
        }
    }
}

} // verus!
