use vstd::prelude::*;

verus! {

/// Relies on `String::push`: the character is added at the end.
#[verifier::external_body]
pub(crate) fn push_char(s: &mut String, c: char)
    ensures
        final(s)@ == old(s)@.push(c),
{
    s.push(c);
}

/// Relies on `str::chars`: the characters of the string, in order.
#[verifier::external_body]
pub(crate) fn chars_of(s: &str) -> (r: Vec<char>)
    ensures
        r@ == s@,
{
    s.chars().collect()
}

/// `n` spaces.
pub open spec fn spaces(n: nat) -> Seq<char>
    decreases n,
{
    if n == 0 {
        Seq::empty()
    } else {
        spaces((n - 1) as nat).push(' ')
    }
}

/// The pieces of `s` between its newlines: one more than there are newlines.
pub open spec fn pieces(s: Seq<char>) -> Seq<Seq<char>>
    decreases s.len(),
{
    if s.len() == 0 {
        seq![Seq::empty()]
    } else {
        let p = pieces(s.drop_last());
        if s.last() == '\n' {
            p.push(Seq::empty())
        } else {
            p.update(p.len() - 1, p.last().push(s.last()))
        }
    }
}

/// A piece without the carriage return that ended it.
pub open spec fn strip_cr(line: Seq<char>) -> Seq<char> {
    if line.len() > 0 && line.last() == '\r' {
        line.drop_last()
    } else {
        line
    }
}

/// The lines of `s`: split at `\n` or `\r\n`; a final line ending adds no
/// empty line, and the empty text has no lines.
pub open spec fn lines(s: Seq<char>) -> Seq<Seq<char>> {
    let p = pieces(s);
    let n = p.len() - 1;
    let ended = Seq::new(n as nat, |i: int| strip_cr(p[i]));
    if p[n].len() == 0 {
        ended
    } else {
        ended.push(p[n])
    }
}

/// The lines joined, with `\n` between two neighbours.
pub open spec fn join_lines(ls: Seq<Seq<char>>) -> Seq<char>
    decreases ls.len(),
{
    if ls.len() == 0 {
        Seq::empty()
    } else if ls.len() == 1 {
        ls[0]
    } else {
        join_lines(ls.drop_last()) + seq!['\n'] + ls.last()
    }
}

/// Every line of `s` shifted right by `level` spaces.
pub open spec fn indented(s: Seq<char>, level: nat) -> Seq<char> {
    join_lines(lines(s).map_values(|l: Seq<char>| spaces(level) + l))
}

/// Shifts text to the right.
pub trait Indent {
    /// Each line of the text prefixed with `level` spaces; lines are joined by `\n`.
    fn indent(&self, level: u32) -> String;
}

impl Indent for str {
    fn indent(&self, level: u32) -> (r: String)
        ensures
            r@ == indented(self@, level as nat),
    {
        indent_text(self, level)
    }
}

/// Every line of `s` prefixed with `level` spaces.
pub fn indent_text(s: &str, level: u32) -> (r: String)
    ensures
        r@ == indented(s@, level as nat),
{
    let cs = chars_of(s);
    let mut prefix = String::new();
    let mut k: u32 = 0;
    while k < level
        invariant
            k <= level,
            prefix@ == spaces(k as nat),
        decreases level - k,
    {
        push_char(&mut prefix, ' ');
        k = k + 1;
    }
    // split into the pieces between newlines
    let mut ps: Vec<Vec<char>> = Vec::new();
    let mut cur: Vec<char> = Vec::new();
    let mut i: usize = 0;
    while i < cs.len()
        invariant
            i <= cs.len(),
            cs@ == s@,
            ps@.len() + cur@.len() <= i,
            ps@.map_values(|v: Vec<char>| v@).push(cur@) == pieces(cs@.subrange(0, i as int)),
        decreases cs.len() - i,
    {
        let c = cs[i];
        proof {
            assert(cs@.subrange(0, i + 1).drop_last() =~= cs@.subrange(0, i as int));
        }
        if c == '\n' {
            let done = cur;
            ps.push(done);
            cur = Vec::new();
            proof {
                assert(ps@.map_values(|v: Vec<char>| v@).push(cur@) =~= pieces(
                    cs@.subrange(0, i as int),
                ).push(Seq::empty()));
            }
        } else {
            cur.push(c);
            proof {
                let p = pieces(cs@.subrange(0, i as int));
                assert(ps@.map_values(|v: Vec<char>| v@).push(cur@) =~= p.update(
                    p.len() - 1,
                    p.last().push(c),
                ));
            }
        }
        i = i + 1;
    }
    proof {
        assert(cs@.subrange(0, i as int) =~= s@);
    }
    let ghost p = pieces(s@);
    let ghost ls = lines(s@);
    let ghost shifted = ls.map_values(|l: Seq<char>| spaces(level as nat) + l);
    // the lines: every ended piece without its carriage return, then the last piece if not empty
    let mut out = String::new();
    let mut j: usize = 0;
    let n_lines: usize = if cur.len() == 0 {
        ps.len()
    } else {
        ps.len() + 1
    };
    assert(n_lines == ls.len());
    while j < n_lines
        invariant
            j <= n_lines == ls.len() == shifted.len(),
            n_lines == ps.len() || n_lines == ps.len() + 1,
            ps@.map_values(|v: Vec<char>| v@).push(cur@) == p,
            ls == lines(s@),
            p == pieces(s@),
            shifted == ls.map_values(|l: Seq<char>| spaces(level as nat) + l),
            prefix@ == spaces(level as nat),
            out@ == join_lines(shifted.subrange(0, j as int)),
        decreases n_lines - j,
    {
        if j > 0 {
            push_char(&mut out, '\n');
        }
        out.append(prefix.as_str());
        let line: &Vec<char> = if j < ps.len() {
            &ps[j]
        } else {
            &cur
        };
        assert(line@ == p[j as int]);
        let mut m: usize = line.len();
        if j < ps.len() && m > 0 && line[m - 1] == '\r' {
            m = m - 1;
        }
        assert(line@.subrange(0, m as int) == ls[j as int]);
        let ghost start = out@;
        let mut t: usize = 0;
        while t < m
            invariant
                t <= m <= line@.len(),
                out@ == start + line@.subrange(0, t as int),
            decreases m - t,
        {
            push_char(&mut out, line[t]);
            proof {
                assert(line@.subrange(0, t + 1) =~= line@.subrange(0, t as int).push(line@[t as int]));
            }
            t = t + 1;
        }
        proof {
            let prev = shifted.subrange(0, j as int);
            let next = shifted.subrange(0, j + 1);
            assert(next.drop_last() =~= prev);
            if j == 0 {
                assert(out@ =~= shifted[0]);
            } else {
                assert(out@ =~= join_lines(prev) + seq!['\n'] + shifted[j as int]);
            }
        }
        j = j + 1;
    }
    proof {
        assert(shifted.subrange(0, j as int) =~= shifted);
    }
    out
}

} // verus!
