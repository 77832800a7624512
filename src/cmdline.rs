use vstd::prelude::*;

use crate::buffer::skip_blank;

verus! {

/// What a command-line entry asks for.
#[derive(Debug)]
pub enum Command {
    Write(Vec<char>),
    Quit,
}

/// `q` quits.
pub open spec fn is_quit(s: Seq<char>) -> bool {
    s =~= seq!['q']
}

/// `w <path>` or `w!<path>` writes the text to `path` (blanks before the
/// path are skipped; the path must not be empty).
pub open spec fn write_path(s: Seq<char>) -> Option<Seq<char>> {
    if s.len() >= 2 && s[0] == 'w' && (s[1] == ' ' || s[1] == '!') {
        let p = s.subrange(skip_blank(s, 2), s.len() as int);
        if p.len() > 0 {
            Some(p)
        } else {
            None
        }
    } else {
        None
    }
}

/// Reads a command-line entry; `None` where it is no command.
pub fn parse_command(s: &Vec<char>) -> (r: Option<Command>)
    ensures
        match r {
            Some(Command::Quit) => is_quit(s@),
            Some(Command::Write(p)) => !is_quit(s@) && write_path(s@) == Some(p@),
            None => !is_quit(s@) && write_path(s@) is None,
        },
{
    if s.len() == 1 && s[0] == 'q' {
        return Some(Command::Quit);
    }
    if s.len() >= 2 && s[0] == 'w' && (s[1] == ' ' || s[1] == '!') {
        let mut k: usize = 2;
        while k < s.len() && (s[k] == ' ' || s[k] == '\t' || s[k] == '\n')
            invariant
                2 <= k <= s@.len(),
                skip_blank(s@, 2) == skip_blank(s@, k as int),
            decreases s@.len() - k,
        {
            k = k + 1;
        }
        if k < s.len() {
            let mut p: Vec<char> = Vec::new();
            let mut j: usize = k;
            while j < s.len()
                invariant
                    k <= j <= s@.len(),
                    p@ == s@.subrange(k as int, j as int),
                decreases s@.len() - j,
            {
                p.push(s[j]);
                j = j + 1;
                assert(p@ =~= s@.subrange(k as int, j as int));
            }
            return Some(Command::Write(p));
        }
    }
    None
}

} // verus!
