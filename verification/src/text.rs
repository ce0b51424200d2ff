//! The text that goes to the editor and comes back from it: one path per
//! line, in the order of the listing.

use vstd::prelude::*;

verus! {

/// A path, compared by its exact value.
pub type Path = Seq<char>;

/// `String::push`: appends one character.
#[verifier::external_body]
pub(crate) fn push_char(text: &mut String, c: char)
    ensures
        final(text)@ == old(text)@.push(c),
{
    text.push(c);
}

/// The lines joined by single newlines, without a newline at the end.
pub open spec fn join_lines(lines: Seq<Seq<char>>) -> Seq<char>
    decreases lines.len(),
{
    if lines.len() == 0 {
        Seq::empty()
    } else if lines.len() == 1 {
        lines[0]
    } else {
        join_lines(lines.drop_last()) + seq!['\n'] + lines.last()
    }
}

/// The position of the first newline of `text`, or its length where it has none.
pub open spec fn first_newline(text: Seq<char>) -> nat
    decreases text.len(),
{
    if text.len() == 0 || text[0] == '\n' {
        0
    } else {
        1 + first_newline(text.drop_first())
    }
}

/// A line as it stood before its newline, without the carriage return of a
/// `\r\n` ending.
pub open spec fn without_carriage_return(raw: Seq<char>) -> Seq<char> {
    if raw.len() > 0 && raw.last() == '\r' {
        raw.drop_last()
    } else {
        raw
    }
}

/// The non-empty lines of `content`. A line ends at `\n` or `\r\n`; the last
/// line needs no ending.
pub open spec fn parse_lines(content: Seq<char>) -> Seq<Seq<char>>
    decreases content.len(),
{
    let k = first_newline(content) as int;
    if k >= content.len() {
        if content.len() == 0 {
            Seq::empty()
        } else {
            seq![content]
        }
    } else {
        let line = without_carriage_return(content.take(k));
        let rest = parse_lines(content.skip(k + 1));
        if line.len() == 0 {
            rest
        } else {
            seq![line] + rest
        }
    }
}

proof fn lemma_first_newline(text: Seq<char>, k: int)
    requires
        0 <= k <= text.len(),
        forall|j: int| 0 <= j < k ==> text[j] != '\n',
        k == text.len() || text[k] == '\n',
    ensures
        first_newline(text) == k,
    decreases text.len(),
{
    if k > 0 {
        lemma_first_newline(text.drop_first(), k - 1);
    }
}

/// A path that a line of the file can hold: it is not empty, has no newline
/// in it and does not end in a carriage return.
pub open spec fn fits_a_line(path: Seq<char>) -> bool {
    &&& path.len() > 0
    &&& forall|i: int| 0 <= i < path.len() ==> path[i] != '\n'
    &&& path.last() != '\r'
}

/// The lines joined by newlines begin with the first line, and the other
/// lines follow it as they are joined by themselves.
proof fn lemma_join_lines_front(lines: Seq<Seq<char>>)
    requires
        lines.len() >= 2,
    ensures
        join_lines(lines) == lines[0] + seq!['\n'] + join_lines(lines.drop_first()),
    decreases lines.len(),
{
    if lines.len() == 2 {
        assert(lines.drop_last() =~= seq![lines[0]]);
        assert(lines.drop_first() =~= seq![lines[1]]);
        assert(join_lines(lines.drop_last()) == lines[0]);
        assert(join_lines(lines.drop_first()) == lines[1]);
    } else {
        lemma_join_lines_front(lines.drop_last());
        assert(lines.drop_last().drop_first() =~= lines.drop_first().drop_last());
        assert(lines.drop_last()[0] == lines[0]);
        assert(lines.drop_first().last() == lines.last());
        assert(join_lines(lines) =~= lines[0] + seq!['\n'] + join_lines(lines.drop_first()));
    }
}

/// The file that the user is given parses back to the listing it was made
/// from: an edit that changes nothing asks for nothing.
pub proof fn lemma_content_parses_back(files: Seq<Seq<char>>)
    requires
        forall|i: int| 0 <= i < files.len() ==> fits_a_line(#[trigger] files[i]),
    ensures
        parse_lines(join_lines(files)) == files,
    decreases files.len(),
{
    let content = join_lines(files);
    if files.len() == 0 {
        assert(parse_lines(content) =~= files);
    } else if files.len() == 1 {
        assert(fits_a_line(files[0]));
        lemma_first_newline(content, content.len() as int);
        assert(parse_lines(content) =~= files);
    } else {
        let first = files[0];
        let rest = files.drop_first();
        assert(fits_a_line(first));
        lemma_join_lines_front(files);
        assert forall|i: int| 0 <= i < rest.len() implies fits_a_line(#[trigger] rest[i]) by {
            assert(rest[i] == files[i + 1]);
        }
        lemma_content_parses_back(rest);
        lemma_first_newline(content, first.len() as int);
        assert(content.take(first.len() as int) =~= first);
        assert(content.skip(first.len() as int + 1) =~= join_lines(rest));
        assert(parse_lines(content) =~= seq![first] + rest);
        assert(seq![first] + rest =~= files);
    }
}

/// The content of the file that the user edits: the paths of the listing,
/// one per line.
pub fn create_editable_temp_file_content(files: &Vec<String>) -> (content: String)
    ensures
        content@ == join_lines(files.deep_view()),
{
    let mut content = String::new();
    let mut i: usize = 0;
    while i < files.len()
        invariant
            0 <= i <= files.len(),
            content@ == join_lines(files.deep_view().take(i as int)),
        decreases files.len() - i,
    {
        proof {
            reveal_strlit("\n");
            let before = files.deep_view().take(i as int);
            let after = files.deep_view().take(i + 1);
            assert(after.drop_last() =~= before);
            assert(after.last() == files[i as int]@);
            assert("\n"@ =~= seq!['\n']);
        }
        if i > 0 {
            content.append("\n");
        }
        content.append(files[i].as_str());
        i += 1;
        proof {
            assert(content@ =~= join_lines(files.deep_view().take(i as int)));
        }
    }
    proof {
        assert(files.deep_view().take(i as int) =~= files.deep_view());
    }
    content
}

/// The paths that the user left in the edited file: its non-empty lines.
pub fn parse_temp_file_content(content: String) -> (lines: Vec<String>)
    ensures
        lines.deep_view() == parse_lines(content@),
{
    let mut lines: Vec<String> = Vec::new();
    let mut current = String::new();
    let ghost mut start: int = 0;
    proof {
        assert(content@.skip(0) =~= content@);
        assert(lines.deep_view() + parse_lines(content@) =~= parse_lines(content@));
    }
    for c in it: content.as_str().chars()
        invariant
            it.seq() == content@,
            0 <= start <= it.index() <= content@.len(),
            current@ == content@.subrange(start, it.index() as int),
            forall|j: int| start <= j < it.index() ==> content@[j] != '\n',
            parse_lines(content@) == lines.deep_view() + parse_lines(content@.skip(start)),
    {
        let ghost i = it.index() as int;
        let ghost tail = content@.skip(start);
        if c == '\n' {
            proof {
                lemma_first_newline(tail, i - start);
                assert(tail.take(i - start) =~= current@);
                assert(tail.skip(i - start + 1) =~= content@.skip(i + 1));
            }
            let line = strip_carriage_return(current);
            if line.as_str().unicode_len() > 0 {
                proof {
                    assert(lines.deep_view().push(line@) + parse_lines(content@.skip(i + 1))
                        =~= lines.deep_view() + (seq![line@] + parse_lines(content@.skip(i + 1))));
                }
                let ghost before = lines.deep_view();
                lines.push(line);
                proof {
                    assert(lines.deep_view() =~= before.push(lines[lines.len() - 1]@));
                }
            }
            current = String::new();
            proof {
                start = i + 1;
                assert(content@.subrange(start, i + 1) =~= Seq::<char>::empty());
            }
        } else {
            push_char(&mut current, c);
            proof {
                assert(current@ =~= content@.subrange(start, i + 1));
            }
        }
    }
    proof {
        let tail = content@.skip(start);
        lemma_first_newline(tail, tail.len() as int);
        assert(current@ =~= tail);
    }
    if current.as_str().unicode_len() > 0 {
        let ghost before = lines.deep_view();
        lines.push(current);
        proof {
            assert(lines.deep_view() =~= before.push(lines[lines.len() - 1]@));
            assert(before.push(lines[lines.len() - 1]@) =~= before + seq![lines[lines.len() - 1]@]);
        }
    } else {
        proof {
            assert(lines.deep_view() + Seq::<Seq<char>>::empty() =~= lines.deep_view());
        }
    }
    lines
}

/// Drops the carriage return that a `\r\n` line ending leaves at the end of a line.
fn strip_carriage_return(raw: String) -> (line: String)
    ensures
        line@ == without_carriage_return(raw@),
{
    let n = raw.as_str().unicode_len();
    if n > 0 && raw.as_str().get_char(n - 1) == '\r' {
        let mut line = String::new();
        let mut k: usize = 0;
        for c in it: raw.as_str().chars()
            invariant
                it.seq() == raw@,
                n == raw@.len(),
                k == it.index(),
                line@ == raw@.take(if k < n - 1 { k as int } else { n - 1 }),
        {
            if k < n - 1 {
                push_char(&mut line, c);
                proof {
                    assert(line@ =~= raw@.take(k + 1));
                }
            }
            k += 1;
        }
        proof {
            assert(raw@.take(n - 1) =~= raw@.drop_last());
        }
        line
    } else {
        raw
    }
}

} // verus!
