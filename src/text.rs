use vstd::prelude::*;
use vstd::string::*;

verus! {

/// The characters of Unicode's `White_Space` property.
pub open spec fn is_white(c: char) -> bool {
    let u = c as u32;
    (0x9 <= u <= 0xd) || u == 0x20 || u == 0x85 || u == 0xa0 || u == 0x1680 || (0x2000 <= u
        <= 0x200a) || u == 0x2028 || u == 0x2029 || u == 0x202f || u == 0x205f || u == 0x3000
}

/// A line that is empty once surrounding white space is trimmed.
pub open spec fn is_blank(s: Seq<char>) -> bool {
    forall|i: int| 0 <= i < s.len() ==> is_white(#[trigger] s[i])
}

/// A line whose first character after leading white space is `comment`.
pub open spec fn is_comment(s: Seq<char>, comment: char) -> bool {
    exists|k: int|
        0 <= k < s.len() && !is_white(#[trigger] s[k]) && s[k] == comment && (forall|j: int|
            0 <= j < k ==> is_white(#[trigger] s[j]))
}

/// A line that holds a row: neither blank nor a comment.
pub open spec fn is_row_line(s: Seq<char>, comment: char) -> bool {
    !is_blank(s) && !is_comment(s, comment)
}

/// The lines that hold rows, in order.
pub open spec fn row_lines(lines: Seq<Seq<char>>, comment: char) -> Seq<Seq<char>>
    decreases lines.len(),
{
    if lines.len() == 0 {
        Seq::empty()
    } else {
        let kept = row_lines(lines.drop_last(), comment);
        if is_row_line(lines.last(), comment) {
            kept.push(lines.last())
        } else {
            kept
        }
    }
}

/// The lines after the first `skip`, that hold rows.
pub open spec fn filtered_lines(lines: Seq<Seq<char>>, skip: nat, comment: char) -> Seq<Seq<char>> {
    if skip >= lines.len() {
        Seq::empty()
    } else {
        row_lines(lines.subrange(skip as int, lines.len() as int), comment)
    }
}

/// The lines joined by newlines.
pub open spec fn joined(lines: Seq<Seq<char>>) -> Seq<char>
    decreases lines.len(),
{
    if lines.len() == 0 {
        Seq::empty()
    } else if lines.len() == 1 {
        lines[0]
    } else {
        joined(lines.drop_last()) + seq!['\n'] + lines.last()
    }
}

pub open spec fn views(lines: Seq<String>) -> Seq<Seq<char>> {
    lines.map_values(|s: String| s@)
}

proof fn lemma_row_lines_kept(lines: Seq<Seq<char>>, comment: char)
    ensures
        forall|k: int|
            0 <= k < row_lines(lines, comment).len() ==> {
                &&& is_row_line(#[trigger] row_lines(lines, comment)[k], comment)
                &&& lines.contains(row_lines(lines, comment)[k])
            },
    decreases lines.len(),
{
    if lines.len() > 0 {
        let d = lines.drop_last();
        lemma_row_lines_kept(d, comment);
        let kept = row_lines(lines, comment);
        assert forall|k: int| 0 <= k < kept.len() implies {
            &&& is_row_line(#[trigger] kept[k], comment)
            &&& lines.contains(kept[k])
        } by {
            if k < row_lines(d, comment).len() {
                assert(kept[k] == row_lines(d, comment)[k]);
                let j = choose|j: int| 0 <= j < d.len() && d[j] == kept[k];
                assert(lines[j] == d[j]);
            } else {
                assert(lines[lines.len() - 1] == lines.last());
            }
        }
    }
}

/// No line that is blank, a comment, or among the first `skip` reaches the
/// rows: every line kept holds a row and stands at or after position `skip`.
pub proof fn lemma_filtered_lines_hold_rows(lines: Seq<Seq<char>>, skip: nat, comment: char)
    ensures
        forall|k: int|
            0 <= k < filtered_lines(lines, skip, comment).len() ==> {
                &&& !is_blank(#[trigger] filtered_lines(lines, skip, comment)[k])
                &&& !is_comment(filtered_lines(lines, skip, comment)[k], comment)
                &&& exists|j: int|
                    skip <= j < lines.len() && lines[j] == filtered_lines(lines, skip, comment)[k]
            },
{
    if skip < lines.len() {
        let tail = lines.subrange(skip as int, lines.len() as int);
        lemma_row_lines_kept(tail, comment);
        let kept = filtered_lines(lines, skip, comment);
        assert forall|k: int| 0 <= k < kept.len() implies {
            &&& !is_blank(#[trigger] kept[k])
            &&& !is_comment(kept[k], comment)
            &&& exists|j: int| skip <= j < lines.len() && lines[j] == kept[k]
        } by {
            let t = choose|t: int| 0 <= t < tail.len() && tail[t] == kept[k];
            assert(lines[skip + t] == tail[t]);
        }
    }
}

/// Whether `c` is white space.
pub fn is_whitespace(c: char) -> (r: bool)
    ensures
        r == is_white(c),
{
    let u = c as u32;
    (0x9 <= u && u <= 0xd) || u == 0x20 || u == 0x85 || u == 0xa0 || u == 0x1680 || (0x2000 <= u
        && u <= 0x200a) || u == 0x2028 || u == 0x2029 || u == 0x202f || u == 0x205f || u == 0x3000
}

/// Whether `line` holds a row: it is neither blank nor, once leading white
/// space is trimmed, starts with `comment`.
pub fn holds_row(line: &str, comment: char) -> (r: bool)
    ensures
        r == is_row_line(line@, comment),
{
    let n = line.unicode_len();
    let mut i: usize = 0;
    while i < n
        invariant
            n == line@.len(),
            i <= n,
            forall|j: int| 0 <= j < i ==> is_white(#[trigger] line@[j]),
        decreases n - i,
    {
        let c = line.get_char(i);
        if !is_whitespace(c) {
            proof {
                assert(!is_blank(line@));
                if c == comment {
                    assert(is_comment(line@, comment));
                } else {
                    assert forall|k: int|
                        0 <= k < line@.len() && !is_white(#[trigger] line@[k]) && line@[k]
                            == comment implies !(forall|j: int|
                        0 <= j < k ==> is_white(#[trigger] line@[j])) by {
                        if k > i {
                            assert(!is_white(line@[i as int]));
                        }
                    }
                }
            }
            return c != comment;
        }
        i += 1;
    }
    assert(is_blank(line@));
    false
}

/// The lines of a file that hold rows: the first `skip` lines are dropped,
/// then every blank line and every comment line.
pub fn filter_lines(lines: &Vec<String>, skip: usize, comment: char) -> (r: Vec<String>)
    ensures
        views(r@) == filtered_lines(views(lines@), skip as nat, comment),
{
    let mut r: Vec<String> = Vec::new();
    if skip >= lines.len() {
        assert(views(r@) =~= Seq::<Seq<char>>::empty());
        return r;
    }
    let ghost all = views(lines@);
    let mut i: usize = skip;
    while i < lines.len()
        invariant
            skip <= i <= lines@.len(),
            all == views(lines@),
            views(r@) == row_lines(all.subrange(skip as int, i as int), comment),
        decreases lines@.len() - i,
    {
        let ghost before = all.subrange(skip as int, i as int);
        let line = &lines[i];
        proof {
            let after = all.subrange(skip as int, i + 1);
            assert(after.drop_last() =~= before);
            assert(after.last() == line@);
        }
        if holds_row(line.as_str(), comment) {
            let ghost old_r = r@;
            r.push(line.clone());
            assert(views(r@) =~= views(old_r).push(line@));
        }
        i += 1;
    }
    assert(all.subrange(skip as int, lines@.len() as int) =~= all.subrange(
        skip as int,
        i as int,
    ));
    r
}

/// The lines joined by newlines, the text a row reader takes.
pub fn join_lines(lines: &Vec<String>) -> (r: String)
    ensures
        r@ == joined(views(lines@)),
{
    let ghost all = views(lines@);
    let mut r = String::new();
    let mut i: usize = 0;
    while i < lines.len()
        invariant
            i <= lines@.len(),
            all == views(lines@),
            r@ == joined(all.subrange(0, i as int)),
        decreases lines@.len() - i,
    {
        let ghost before = all.subrange(0, i as int);
        proof {
            let after = all.subrange(0, i + 1);
            assert(after.drop_last() =~= before);
            assert(after.last() == lines@[i as int]@);
            if i == 0 {
                assert(before.len() == 0);
            }
        }
        if i > 0 {
            proof {
                reveal_strlit("\n");
            }
            r.append("\n");
        }
        r.append(lines[i].as_str());
        proof {
            let after = all.subrange(0, i + 1);
            if i == 0 {
                assert(r@ =~= after[0]);
            } else {
                assert(r@ =~= joined(before) + seq!['\n'] + after.last());
            }
        }
        i += 1;
    }
    assert(all.subrange(0, lines@.len() as int) =~= all);
    r
}

} // verus!
