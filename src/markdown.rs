use crate::text::{chars_of, push_char, trim_text, trimmed};
use vstd::prelude::*;

verus! {

/// The pieces of a text between newline characters (at least one piece).
pub open spec fn split_nl(s: Seq<char>) -> Seq<Seq<char>>
    decreases s.len(),
{
    if s.len() == 0 {
        seq![Seq::empty()]
    } else {
        let p = split_nl(s.drop_last());
        if s.last() == '\n' {
            p.push(Seq::empty())
        } else {
            p.update(p.len() - 1, p.last().push(s.last()))
        }
    }
}

/// A line that ended in a newline loses a carriage return before it.
pub open spec fn strip_cr(l: Seq<char>) -> Seq<char> {
    if l.len() > 0 && l.last() == '\r' {
        l.drop_last()
    } else {
        l
    }
}

/// The lines of a text: split at `\n` (a `\r` before it dropped), with no
/// empty line after a final newline.
pub open spec fn lines_of(s: Seq<char>) -> Seq<Seq<char>> {
    let p = split_nl(s);
    let body = p.drop_last().map_values(|l: Seq<char>| strip_cr(l));
    if p.last().len() == 0 {
        body
    } else {
        body.push(p.last())
    }
}

/// The line without its leading `#` characters.
pub open spec fn strip_hashes(l: Seq<char>) -> Seq<char>
    decreases l.len(),
{
    if l.len() > 0 && l[0] == '#' {
        strip_hashes(l.skip(1))
    } else {
        l
    }
}

/// The line without emphasis (`*`) and code (`` ` ``) marks.
pub open spec fn drop_marks(l: Seq<char>) -> Seq<char>
    decreases l.len(),
{
    if l.len() == 0 {
        l
    } else {
        let r = drop_marks(l.drop_last());
        if l.last() == '*' || l.last() == '`' {
            r
        } else {
            r.push(l.last())
        }
    }
}

/// One line of plain text from one line of markdown.
pub open spec fn clean_line(l: Seq<char>) -> Seq<char> {
    drop_marks(trimmed(strip_hashes(l)))
}

/// Lines joined with newlines.
pub open spec fn join_lines(ls: Seq<Seq<char>>) -> Seq<char>
    decreases ls.len(),
{
    if ls.len() == 0 {
        Seq::empty()
    } else if ls.len() == 1 {
        ls[0]
    } else {
        join_lines(ls.drop_last()) + seq!['\n'] + ls.last()
    }
}

/// Markdown reduced to plain text, line by line, then trimmed.
pub open spec fn clean_markdown_spec(s: Seq<char>) -> Seq<char> {
    trimmed(join_lines(lines_of(s).map_values(|l: Seq<char>| clean_line(l))))
}

proof fn lemma_split_nonempty(s: Seq<char>)
    ensures
        split_nl(s).len() >= 1,
    decreases s.len(),
{
    if s.len() > 0 {
        lemma_split_nonempty(s.drop_last());
    }
}

/// The line from its first character that is not `#`.
fn strip_hashes_exec(l: &Vec<char>) -> (r: Vec<char>)
    ensures
        r@ == strip_hashes(l@),
{
    let mut k: usize = 0;
    proof {
        assert(l@.skip(0) =~= l@);
    }
    while k < l.len() && l[k] == '#'
        invariant
            k <= l@.len(),
            strip_hashes(l@.skip(k as int)) == strip_hashes(l@),
        decreases l@.len() - k,
    {
        proof {
            assert(l@.skip(k as int).skip(1) =~= l@.skip(k + 1));
        }
        k = k + 1;
    }
    let mut out: Vec<char> = Vec::new();
    let mut i: usize = k;
    while i < l.len()
        invariant
            k <= i <= l@.len(),
            out@ == l@.subrange(k as int, i as int),
        decreases l@.len() - i,
    {
        out.push(l[i]);
        i = i + 1;
        proof {
            assert(out@ =~= l@.subrange(k as int, i as int));
        }
    }
    proof {
        assert(out@ =~= l@.skip(k as int));
    }
    out
}

/// The characters of a string.
fn string_of(v: &Vec<char>) -> (r: String)
    ensures
        r@ == v@,
{
    let mut s = String::new();
    let mut i: usize = 0;
    while i < v.len()
        invariant
            i <= v@.len(),
            s@ == v@.take(i as int),
        decreases v@.len() - i,
    {
        push_char(&mut s, v[i]);
        i = i + 1;
        proof {
            assert(s@ =~= v@.take(i as int));
        }
    }
    proof {
        assert(v@.take(i as int) =~= v@);
    }
    s
}

/// One cleaned line, as `clean_line` describes.
fn clean_line_exec(l: &Vec<char>) -> (r: Vec<char>)
    ensures
        r@ == clean_line(l@),
{
    let body = string_of(&strip_hashes_exec(l));
    let t = chars_of(trim_text(body.as_str()));
    let mut out: Vec<char> = Vec::new();
    let mut i: usize = 0;
    while i < t.len()
        invariant
            i <= t@.len(),
            out@ == drop_marks(t@.take(i as int)),
        decreases t@.len() - i,
    {
        proof {
            assert(t@.take(i + 1).drop_last() =~= t@.take(i as int));
        }
        let c = t[i];
        if c != '*' && c != '`' {
            out.push(c);
        }
        i = i + 1;
    }
    proof {
        assert(t@.take(i as int) =~= t@);
    }
    out
}

/// Reduces markdown to plain text: heading marks, emphasis marks and code
/// marks go, each line is trimmed, and so is the whole.
pub fn clean_markdown_text(text: &str) -> (r: String)
    ensures
        r@ == clean_markdown_spec(text@),
{
    let cs = chars_of(text);
    // the completed pieces, each of which ended in a newline
    let mut done: Vec<Vec<char>> = Vec::new();
    let mut cur: Vec<char> = Vec::new();
    let mut i: usize = 0;
    while i < cs.len()
        invariant
            i <= cs@.len(),
            done@.map_values(|v: Vec<char>| v@).push(cur@) == split_nl(cs@.take(i as int)),
        decreases cs@.len() - i,
    {
        proof {
            assert(cs@.take(i + 1).drop_last() =~= cs@.take(i as int));
            lemma_split_nonempty(cs@.take(i as int));
        }
        let c = cs[i];
        if c == '\n' {
            let piece = cur;
            cur = Vec::new();
            proof {
                assert(done@.push(piece).map_values(|v: Vec<char>| v@).push(cur@) =~= done@.map_values(
                    |v: Vec<char>| v@,
                ).push(piece@).push(Seq::empty()));
            }
            done.push(piece);
        } else {
            cur.push(c);
            proof {
                let p = split_nl(cs@.take(i as int));
                assert(done@.map_values(|v: Vec<char>| v@).push(cur@) =~= p.update(
                    p.len() - 1,
                    p.last().push(c),
                ));
            }
        }
        i = i + 1;
    }
    proof {
        assert(cs@.take(i as int) =~= text@);
    }
    let ghost pieces = split_nl(text@);
    let ghost lines = lines_of(text@);
    let ghost cleaned = lines.map_values(|l: Seq<char>| clean_line(l));
    proof {
        assert(pieces.drop_last() =~= done@.map_values(|v: Vec<char>| v@));
        assert(pieces.last() == cur@);
    }
    let mut out = String::new();
    let mut j: usize = 0;
    while j < done.len()
        invariant
            j <= done@.len(),
            pieces.drop_last() == done@.map_values(|v: Vec<char>| v@),
            lines == (if pieces.last().len() == 0 {
                pieces.drop_last().map_values(|l: Seq<char>| strip_cr(l))
            } else {
                pieces.drop_last().map_values(|l: Seq<char>| strip_cr(l)).push(pieces.last())
            }),
            cleaned == lines.map_values(|l: Seq<char>| clean_line(l)),
            out@ == join_lines(cleaned.take(j as int)),
        decreases done@.len() - j,
    {
        let piece = &done[j];
        let mut line: Vec<char> = Vec::new();
        let mut k: usize = 0;
        let n = if piece.len() > 0 && piece[piece.len() - 1] == '\r' {
            piece.len() - 1
        } else {
            piece.len()
        };
        while k < n
            invariant
                n <= piece@.len(),
                k <= n,
                line@ == piece@.take(k as int),
            decreases n - k,
        {
            line.push(piece[k]);
            k = k + 1;
            proof {
                assert(line@ =~= piece@.take(k as int));
            }
        }
        proof {
            assert(line@ =~= strip_cr(piece@));
            assert(lines[j as int] == strip_cr(piece@));
            assert(cleaned.take(j + 1).drop_last() =~= cleaned.take(j as int));
        }
        let cl = clean_line_exec(&line);
        if j > 0 {
            push_char(&mut out, '\n');
        }
        out.append(string_of(&cl).as_str());
        proof {
            if j > 0 {
                assert(out@ =~= join_lines(cleaned.take(j as int)) + seq!['\n'] + cleaned[j as int]);
            } else {
                assert(out@ =~= cleaned.take(1)[0]);
            }
        }
        j = j + 1;
    }
    proof {
        assert(cleaned.take(j as int) =~= pieces.drop_last().map_values(
            |l: Seq<char>| clean_line(strip_cr(l)),
        ));
    }
    if cur.len() > 0 {
        let cl = clean_line_exec(&cur);
        if j > 0 {
            push_char(&mut out, '\n');
        }
        out.append(string_of(&cl).as_str());
        proof {
            assert(cleaned.take(j as int + 1) =~= cleaned);
            assert(cleaned.take(j as int + 1).drop_last() =~= cleaned.take(j as int));
            if j > 0 {
                assert(out@ =~= join_lines(cleaned.take(j as int)) + seq!['\n'] + cleaned[j as int]);
            } else {
                assert(out@ =~= cleaned.take(1)[0]);
            }
        }
    } else {
        proof {
            assert(cleaned.take(j as int) =~= cleaned);
        }
    }
    String::from_str(trim_text(out.as_str()))
}

} // verus!
