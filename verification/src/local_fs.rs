//! The text formats of local files: input files are read line by line into
//! records, and outputs are written as `key<TAB>value` lines.
//!
//! Reading and writing the files themselves is left to the caller; these are
//! the computations on their contents.

use vstd::prelude::*;
use vstd::string::StrSliceExecFns;

use crate::record::{InputRecord, Key, Value};
use crate::text::chars_of;
use crate::word_count::views;

verus! {

broadcast use vstd::seq_lib::group_seq_properties;

/// The name of the file that outputs are written to, inside the output directory.
pub const PART_FILE_NAME: &'static str = "part-00000";

/// Reading `s` line by line: the lines read so far, each with its `\n`, and the
/// text after the last `\n`.
pub open spec fn line_state(s: Seq<char>) -> (Seq<Seq<char>>, Seq<char>)
    decreases s.len(),
{
    if s.len() == 0 {
        (Seq::empty(), Seq::empty())
    } else {
        let (lines, cur) = line_state(s.drop_last());
        if s.last() == '\n' {
            (lines.push(cur.push('\n')), Seq::empty())
        } else {
            (lines, cur.push(s.last()))
        }
    }
}

/// The lines that `BufRead::read_line` yields one after another: each up to and
/// including a `\n`, and a last one without `\n` if the text does not end in one.
pub open spec fn raw_lines(s: Seq<char>) -> Seq<Seq<char>> {
    let (lines, cur) = line_state(s);
    if cur.len() > 0 {
        lines.push(cur)
    } else {
        lines
    }
}

/// A line without its `\n` or `\r\n` ending.
pub open spec fn stripped(line: Seq<char>) -> Seq<char> {
    if line.len() > 0 && line.last() == '\n' {
        let rest = line.drop_last();
        if rest.len() > 0 && rest.last() == '\r' {
            rest.drop_last()
        } else {
            rest
        }
    } else {
        line
    }
}

/// The lines of a file's text, without line endings.
pub open spec fn file_lines(s: Seq<char>) -> Seq<Seq<char>> {
    raw_lines(s).map_values(|l: Seq<char>| stripped(l))
}

/// The lines of several files' texts, file after file.
pub open spec fn all_lines(texts: Seq<Seq<char>>) -> Seq<Seq<char>>
    decreases texts.len(),
{
    if texts.len() == 0 {
        Seq::empty()
    } else {
        all_lines(texts.drop_last()) + file_lines(texts.last())
    }
}

proof fn lemma_line_state_append(t1: Seq<char>, t2: Seq<char>)
    requires
        t1.len() == 0 || t1.last() == '\n',
    ensures
        line_state(t1 + t2) == (line_state(t1).0 + line_state(t2).0, line_state(t2).1),
    decreases t2.len(),
{
    if t2.len() > 0 {
        assert((t1 + t2).drop_last() =~= t1 + t2.drop_last());
        assert((t1 + t2).last() == t2.last());
        lemma_line_state_append(t1, t2.drop_last());
        let (l1, c1) = line_state(t1);
        let (l2, c2) = line_state(t2.drop_last());
        assert((l1 + l2).push(c2.push('\n')) =~= l1 + l2.push(c2.push('\n')));
    } else {
        assert(t1 + t2 =~= t1);
        assert(line_state(t1).0 + Seq::<Seq<char>>::empty() =~= line_state(t1).0);
        if t1.len() > 0 {
            assert(line_state(t1).1 =~= Seq::<char>::empty());
        }
    }
}

/// A text that is empty or ends with a line ending splits into lines apart from
/// what follows it: the lines of the two texts put together are the lines of the
/// first, then those of the second.
pub proof fn lemma_file_lines_append(t1: Seq<char>, t2: Seq<char>)
    requires
        t1.len() == 0 || t1.last() == '\n',
    ensures
        file_lines(t1 + t2) == file_lines(t1) + file_lines(t2),
{
    lemma_line_state_append(t1, t2);
    let (l1, c1) = line_state(t1);
    let (l2, c2) = line_state(t2);
    if t1.len() > 0 {
        assert(c1 =~= Seq::<char>::empty());
    } else {
        assert(t1 + t2 =~= t2);
        assert(l1 =~= Seq::<Seq<char>>::empty());
    }
    let f = |l: Seq<char>| stripped(l);
    if c2.len() > 0 {
        assert((l1 + l2).push(c2) =~= l1 + l2.push(c2));
        assert((l1 + l2.push(c2)).map_values(f) =~= l1.map_values(f) + l2.push(c2).map_values(f));
    } else {
        assert((l1 + l2).map_values(f) =~= l1.map_values(f) + l2.map_values(f));
    }
}

/// The lines of each of several files' texts.
pub open spec fn lines_per_file(texts: Seq<Seq<char>>) -> Seq<Seq<Seq<char>>> {
    texts.map_values(|t: Seq<char>| file_lines(t))
}

/// The lines of several files are those of each file, put together file after
/// file: each file's lines depend on that file's text alone, and no line runs
/// from one file into the next.
pub proof fn lemma_all_lines_file_by_file(texts: Seq<Seq<char>>)
    ensures
        all_lines(texts) == lines_per_file(texts).flatten(),
    decreases texts.len(),
{
    lines_per_file(texts).lemma_flatten_and_flatten_alt_are_equivalent();
    if texts.len() > 0 {
        lemma_all_lines_file_by_file(texts.drop_last());
        lines_per_file(texts.drop_last()).lemma_flatten_and_flatten_alt_are_equivalent();
        assert(lines_per_file(texts).drop_last() =~= lines_per_file(texts.drop_last()));
    } else {
        assert(lines_per_file(texts).flatten_alt() =~= Seq::<Seq<char>>::empty());
    }
}

/// One more file adds its own lines after those of the files before it.
pub proof fn lemma_all_lines_push(texts: Seq<Seq<char>>, t: Seq<char>)
    ensures
        all_lines(texts.push(t)) == all_lines(texts) + file_lines(t),
{
    assert(texts.push(t).drop_last() =~= texts);
}

/// Removes one trailing `\n`, and then one `\r` before it.
pub fn strip_line_ending(line: &mut String)
    ensures
        final(line)@ == stripped(old(line)@),
{
    let cs = chars_of(line.as_str());
    let n = cs.len();
    let mut end = n;
    if n > 0 && cs[n - 1] == '\n' {
        end = n - 1;
        if end > 0 && cs[end - 1] == '\r' {
            end = end - 1;
        }
    }
    let kept = line.as_str().substring_char(0, end).to_owned();
    proof {
        let s = old(line)@;
        if n > 0 && s.last() == '\n' {
            assert(s.drop_last() =~= s.subrange(0, n - 1));
            if n - 1 > 0 && s[n - 2] == '\r' {
                assert(s.drop_last().drop_last() =~= s.subrange(0, n - 2));
            }
        } else {
            assert(s.subrange(0, n as int) =~= s);
        }
    }
    *line = kept;
}

/// The lines of a file's text, without line endings.
pub fn lines_of(content: &str) -> (lines: Vec<String>)
    ensures
        views(lines@) == file_lines(content@),
{
    let cs = chars_of(content);
    let n = cs.len();
    let mut lines: Vec<String> = Vec::new();
    let mut start: usize = 0;
    let mut i: usize = 0;
    while i < n
        invariant
            cs@ == content@,
            n == cs.len(),
            start <= i <= n,
            views(lines@) == line_state(content@.take(i as int)).0.map_values(
                |l: Seq<char>| stripped(l),
            ),
            line_state(content@.take(i as int)).1 == content@.subrange(start as int, i as int),
        decreases n - i,
    {
        let ghost s = content@;
        assert(s.take(i + 1).drop_last() =~= s.take(i as int));
        assert(s.take(i + 1).last() == cs@[i as int]);
        if cs[i] == '\n' {
            let mut raw = content.substring_char(start, i + 1).to_owned();
            assert(raw@ =~= s.subrange(start as int, i as int).push('\n'));
            strip_line_ending(&mut raw);
            let ghost before = lines@;
            lines.push(raw);
            assert(views(lines@) =~= views(before).push(raw@));
            start = i + 1;
        }
        assert(content@.subrange(start as int, i + 1) =~= line_state(s.take(i + 1)).1);
        i = i + 1;
        assert(views(lines@) =~= line_state(s.take(i as int)).0.map_values(
            |l: Seq<char>| stripped(l),
        ));
    }
    assert(content@.take(n as int) =~= content@);
    if start < n {
        let mut raw = content.substring_char(start, n).to_owned();
        strip_line_ending(&mut raw);
        let ghost before = lines@;
        lines.push(raw);
        assert(views(lines@) =~= views(before).push(raw@));
    }
    assert(views(lines@) =~= file_lines(content@));
    lines
}

/// Reads text files into records.
pub struct LocalTextInput;

impl LocalTextInput {
    /// The records of files with the given contents: one per line, file after
    /// file, numbered from 0.
    pub fn records_from_contents(contents: &Vec<String>) -> (records: Vec<InputRecord>)
        ensures
            records@.len() == all_lines(views(contents@)).len(),
            forall|i: int|
                0 <= i < records@.len() ==> (#[trigger] records@[i]).offset == i
                    && records@[i].value@ == all_lines(views(contents@))[i],
    {
        let ghost texts = views(contents@);
        let mut records: Vec<InputRecord> = Vec::new();
        let mut offset: u64 = 0;
        let mut f: usize = 0;
        while f < contents.len()
            invariant
                texts == views(contents@),
                f <= contents.len(),
                records@.len() == offset,
                records@.len() == all_lines(texts.take(f as int)).len(),
                forall|i: int|
                    0 <= i < records@.len() ==> (#[trigger] records@[i]).offset == i
                        && records@[i].value@ == all_lines(texts.take(f as int))[i],
            decreases contents.len() - f,
        {
            assert(texts.take(f + 1).drop_last() =~= texts.take(f as int));
            assert(texts.take(f + 1).last() == contents@[f as int]@);
            let lines = lines_of(contents[f].as_str());
            let ghost ls = lines@;
            let line_count = lines.len();
            assert(ls.len() == line_count);
            let ghost base = records@.len();
            let ghost prev = all_lines(texts.take(f as int));
            let mut l: usize = 0;
            for line in it: lines.into_iter()
                invariant
                    it.seq() == ls,
                    l == it.index(),
                    l <= ls.len(),
                    ls.len() <= usize::MAX,
                    f < texts.len(),
                    views(ls) == file_lines(texts[f as int]),
                    prev == all_lines(texts.take(f as int)),
                    all_lines(texts.take(f + 1)) == prev + file_lines(texts[f as int]),
                    base == prev.len(),
                    records@.len() == offset,
                    records@.len() == base + l,
                    forall|i: int|
                        0 <= i < records@.len() ==> (#[trigger] records@[i]).offset == i
                            && records@[i].value@ == (prev + file_lines(texts[f as int]))[i],
            {
                assert(line@ == views(ls)[l as int]);
                records.push(InputRecord { offset, value: line });
                let count = records.len();
                assert(count <= u64::MAX);
                offset = offset + 1;
                l = l + 1;
            }
            f = f + 1;
        }
        assert(texts.take(contents.len() as int) =~= texts);
        records
    }
}

/// The text of an output file: one `key<TAB>value` line per pair.
pub open spec fn rendered(outputs: Seq<(Key, Value)>) -> Seq<char>
    decreases outputs.len(),
{
    if outputs.len() == 0 {
        Seq::empty()
    } else {
        rendered(outputs.drop_last()) + outputs.last().0@ + "\t"@ + outputs.last().1@ + "\n"@
    }
}

/// Writes output pairs as text files.
pub struct LocalTextOutput;

impl LocalTextOutput {
    /// The text written for the outputs.
    pub fn render(outputs: &[(Key, Value)]) -> (r: String)
        ensures
            r@ == rendered(outputs@),
    {
        let mut r = String::new();
        let mut i: usize = 0;
        while i < outputs.len()
            invariant
                i <= outputs@.len(),
                r@ == rendered(outputs@.take(i as int)),
            decreases outputs@.len() - i,
        {
            assert(outputs@.take(i + 1).drop_last() =~= outputs@.take(i as int));
            r.append(outputs[i].0.as_str());
            r.append("\t");
            r.append(outputs[i].1.as_str());
            r.append("\n");
            i = i + 1;
        }
        assert(outputs@.take(outputs@.len() as int) =~= outputs@);
        r
    }
}

} // verus!
