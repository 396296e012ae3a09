//! Splitting comma-separated text into rows of fields.
//!
//! A text is cut into lines at every line feed, lines that hold nothing but
//! white space are dropped, and each line that is left is cut into fields at
//! every comma. Nothing is trimmed or unquoted: a field is the text between
//! two commas as it stands.

use vstd::prelude::*;

verus! {

/// `String::push` appends the character to the end of the string.
pub assume_specification[ String::push ](s: &mut String, ch: char)
    ensures
        final(s)@ == old(s)@.push(ch),
;

/// The character has the Unicode property `White_Space`.
pub open spec fn spec_is_space(c: char) -> bool {
    let code = c as u32;
    ||| 0x09 <= code <= 0x0d
    ||| code == 0x20
    ||| code == 0x85
    ||| code == 0xa0
    ||| code == 0x1680
    ||| 0x2000 <= code <= 0x200a
    ||| code == 0x2028
    ||| code == 0x2029
    ||| code == 0x202f
    ||| code == 0x205f
    ||| code == 0x3000
}

/// Tells whether a character is white space.
#[verifier::when_used_as_spec(spec_is_space)]
pub fn is_space(c: char) -> (r: bool)
    ensures
        r == spec_is_space(c),
{
    let code: u32 = c as u32;
    (0x09 <= code && code <= 0x0d) || code == 0x20 || code == 0x85 || code == 0xa0 || code
        == 0x1680 || (0x2000 <= code && code <= 0x200a) || code == 0x2028 || code == 0x2029
        || code == 0x202f || code == 0x205f || code == 0x3000
}

/// The line holds nothing but white space.
pub open spec fn blank(line: Seq<char>) -> bool {
    forall|i: int| 0 <= i < line.len() ==> spec_is_space(#[trigger] line[i])
}

/// The pieces that a text falls into when it is cut at every `separator`.
/// There is always at least one piece: the empty text has one empty piece, a
/// separator closes the piece before it and opens a new one, and any other
/// character goes to the end of the last piece.
pub open spec fn split(text: Seq<char>, separator: char) -> Seq<Seq<char>>
    decreases text.len(),
{
    if text.len() == 0 {
        seq![Seq::<char>::empty()]
    } else {
        let before = split(text.drop_last(), separator);
        if text.last() == separator {
            before.push(Seq::<char>::empty())
        } else {
            before.drop_last().push(before.last().push(text.last()))
        }
    }
}

/// The rows of a sequence of lines: each line that is not blank, cut at its
/// commas, in the order of the lines.
pub open spec fn rows_of(lines: Seq<Seq<char>>) -> Seq<Seq<Seq<char>>>
    decreases lines.len(),
{
    if lines.len() == 0 {
        Seq::<Seq<Seq<char>>>::empty()
    } else {
        let before = rows_of(lines.drop_last());
        if blank(lines.last()) {
            before
        } else {
            before.push(split(lines.last(), ','))
        }
    }
}

/// The table that a text holds.
pub open spec fn table_of(text: Seq<char>) -> Seq<Seq<Seq<char>>> {
    rows_of(split(text, '\n'))
}

/// The fields of a row, each as the sequence of its characters.
pub open spec fn row_view(row: Seq<String>) -> Seq<Seq<char>> {
    row.map_values(|field: String| field@)
}

/// The rows of a table, each as the sequence of its fields.
pub open spec fn table_view(table: Seq<Vec<String>>) -> Seq<Seq<Seq<char>>> {
    table.map_values(|row: Vec<String>| row_view(row@))
}

/// The text that pieces make when they are put together again with
/// `separator` between each two of them.
pub open spec fn joined(pieces: Seq<Seq<char>>, separator: char) -> Seq<char>
    decreases pieces.len(),
{
    if pieces.len() == 0 {
        Seq::<char>::empty()
    } else if pieces.len() == 1 {
        pieces[0]
    } else {
        joined(pieces.drop_last(), separator).push(separator) + pieces.last()
    }
}

/// Cutting loses nothing and cuts everywhere: a text falls into at least one
/// piece, no piece holds the separator, and the pieces put together again
/// with the separator between them are the text.
pub proof fn lemma_split_joins_back(text: Seq<char>, separator: char)
    ensures
        split(text, separator).len() >= 1,
        forall|i: int, j: int|
            0 <= i < split(text, separator).len() && 0 <= j < split(text, separator)[i].len()
                ==> #[trigger] split(text, separator)[i][j] != separator,
        joined(split(text, separator), separator) == text,
    decreases text.len(),
{
    if text.len() == 0 {
        assert(joined(split(text, separator), separator) =~= text);
    } else {
        let shorter = text.drop_last();
        let before = split(shorter, separator);
        let pieces = split(text, separator);
        lemma_split_joins_back(shorter, separator);
        if text.last() == separator {
            assert(pieces.drop_last() =~= before);
            assert(joined(pieces, separator) =~= text);
        } else {
            let grown = before.last().push(text.last());
            assert(pieces.last() == grown);
            assert(pieces.drop_last() =~= before.drop_last());
            assert forall|i: int, j: int|
                0 <= i < pieces.len() && 0 <= j < pieces[i].len() implies #[trigger] pieces[i][j]
                != separator by {
                if i < pieces.len() - 1 {
                    assert(pieces[i] == before[i]);
                } else if j < before.last().len() {
                    assert(pieces[i][j] == before[before.len() - 1][j]);
                }
            }
            if before.len() == 1 {
                assert(joined(pieces, separator) =~= text);
            } else {
                assert(joined(pieces, separator) =~= joined(before, separator).push(text.last()));
                assert(joined(pieces, separator) =~= text);
            }
        }
    }
}

/// Reads the table that a comma-separated text holds.
pub fn parse(text: &str) -> (table: Vec<Vec<String>>)
    ensures
        table_view(table@) == table_of(text@),
{
    let mut table: Vec<Vec<String>> = Vec::new();
    let mut row: Vec<String> = Vec::new();
    let mut field: String = String::new();
    let mut all_space: bool = true;
    let ghost mut lines: Seq<Seq<char>> = Seq::empty();
    let ghost mut line: Seq<char> = Seq::empty();
    proof {
        assert(text@.subrange(0, 0) =~= Seq::<char>::empty());
        assert(table_view(table@) =~= rows_of(lines));
        assert(row_view(row@).push(field@) =~= split(line, ','));
        assert(lines.push(line) =~= split(text@.subrange(0, 0), '\n'));
    }
    for c in it: text.chars()
        invariant
            it.seq() == text@,
            split(text@.subrange(0, it.index()), '\n') == lines.push(line),
            table_view(table@) == rows_of(lines),
            split(line, ',') == row_view(row@).push(field@),
            all_space == blank(line),
    {
        proof {
            let before = text@.subrange(0, it.index());
            let after = text@.subrange(0, it.index() + 1);
            assert(after.drop_last() =~= before);
            assert(after.last() == c);
            assert(lines.push(line).drop_last() =~= lines);
        }
        if c == '\n' {
            let ghost table_before = table@;
            proof {
                let closed = lines.push(line);
                assert(closed.drop_last() =~= lines);
                assert(row_view(row@.push(field)) =~= row_view(row@).push(field@));
                lines = closed;
                line = Seq::empty();
            }
            row.push(field);
            let ghost fields = row@;
            if !all_space {
                table.push(row);
                proof {
                    assert(table@.last()@ == fields);
                    assert(table@.drop_last() =~= table_before);
                    assert(table_view(table@) =~= table_view(table_before).push(row_view(fields)));
                }
            }
            row = Vec::new();
            field = String::new();
            all_space = true;
            proof {
                assert(row_view(row@).push(field@) =~= split(line, ','));
            }
        } else {
            proof {
                let longer = line.push(c);
                assert(longer.drop_last() =~= line);
                assert(row_view(row@).push(field@).drop_last() =~= row_view(row@));
                assert(blank(longer) == (blank(line) && spec_is_space(c))) by {
                    if blank(line) && spec_is_space(c) {
                        assert forall|i: int| 0 <= i < longer.len() implies spec_is_space(
                            #[trigger] longer[i],
                        ) by {
                            if i < line.len() {
                                assert(longer[i] == line[i]);
                            }
                        }
                    } else if blank(longer) {
                        assert(spec_is_space(longer[line.len() as int]));
                        assert forall|i: int| 0 <= i < line.len() implies spec_is_space(
                            #[trigger] line[i],
                        ) by {
                            assert(longer[i] == line[i]);
                        }
                    }
                }
                line = longer;
            }
            if c == ',' {
                proof {
                    assert(row_view(row@.push(field)) =~= row_view(row@).push(field@));
                    assert(!spec_is_space(','));
                }
                row.push(field);
                field = String::new();
                all_space = false;
            } else {
                field.push(c);
                all_space = all_space && is_space(c);
            }
        }
    }
    let ghost table_before = table@;
    proof {
        assert(text@.subrange(0, text@.len() as int) =~= text@);
        let closed = lines.push(line);
        assert(closed.drop_last() =~= lines);
        assert(row_view(row@.push(field)) =~= row_view(row@).push(field@));
    }
    row.push(field);
    let ghost fields = row@;
    if !all_space {
        table.push(row);
        proof {
            assert(table@.last()@ == fields);
            assert(table@.drop_last() =~= table_before);
            assert(table_view(table@) =~= table_view(table_before).push(row_view(fields)));
        }
    }
    table
}

} // verus!
