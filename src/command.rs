//! Reading bot commands out of a message.

use crate::levenshtein::white_space;
use crate::menu::lower_of;
use crate::menu::lowercase;
use crate::text::chars_of;
use crate::text::string_from_chars;
use crate::tg::MessageEntity;
use vstd::prelude::*;

verus! {

/// The commands the bot knows.
#[derive(Clone, Copy, Debug, PartialEq, Eq, Structural)]
pub enum Command {
    Mensa,
    About,
    Other,
}

/// A command without the `@` and bot name that may end it.
pub open spec fn without_botname(c: Seq<char>, bot: Option<Seq<char>>) -> Seq<char> {
    match bot {
        Some(b) => if c.len() > b.len() && c.subrange(c.len() - b.len() - 1, c.len() as int) == seq![
            '@',
        ] + b {
            c.subrange(0, c.len() - b.len() - 1)
        } else {
            c
        },
        None => c,
    }
}

pub open spec fn command_kind(c: Seq<char>) -> Command {
    if c == "/mensa"@ {
        Command::Mensa
    } else if c == "/about"@ {
        Command::About
    } else {
        Command::Other
    }
}

/// Which command a command entity's text names, once a trailing `@` and the
/// bot's own name are taken off.
pub fn command_of(cmd: &str, botname: Option<&String>) -> (r: Command)
    ensures
        r == command_kind(
            without_botname(
                cmd@,
                match botname {
                    Some(b) => Some(b@),
                    None => None,
                },
            ),
        ),
{
    let c = chars_of(cmd);
    let n = c.len();
    let mut end = n;
    match botname {
        Some(b) => {
            let bc = chars_of(b.as_str());
            let m = bc.len();
            if n > m && c[n - m - 1] == '@' {
                let mut k: usize = 0;
                let mut same = true;
                while k < m && same
                    invariant
                        k <= m,
                        n > m,
                        c@ == cmd@,
                        bc@ == b@,
                        m == bc@.len(),
                        n == c@.len(),
                        same ==> forall|q: int| 0 <= q < k ==> c@[n - m + q] == bc@[q],
                        !same ==> exists|q: int| 0 <= q < m && c@[n - m + q] != bc@[q],
                    decreases m - k,
                {
                    if c[n - m + k] != bc[k] {
                        same = false;
                    }
                    k = k + 1;
                }
                let ghost tail = cmd@.subrange(n - m - 1, n as int);
                if same {
                    assert(tail =~= seq!['@'] + b@);
                    end = n - m - 1;
                } else {
                    let ghost q = choose|q: int| 0 <= q < m && c@[n - m + q] != bc@[q];
                    assert(tail[q + 1] != (seq!['@'] + b@)[q + 1]);
                }
            } else if n > m {
                assert(cmd@.subrange(n - m - 1, n as int)[0] != (seq!['@'] + b@)[0]);
            }
        },
        None => {},
    }
    let mut name: Vec<char> = Vec::new();
    let mut k: usize = 0;
    while k < end
        invariant
            k <= end <= n,
            n == c@.len(),
            name@ == c@.subrange(0, k as int),
        decreases end - k,
    {
        name.push(c[k]);
        k = k + 1;
        assert(name@ =~= c@.subrange(0, k as int));
    }
    assert(end == n ==> c@.subrange(0, end as int) =~= c@);
    let mensa = chars_of("/mensa");
    let about = chars_of("/about");
    if same_chars(&name, &mensa) {
        Command::Mensa
    } else if same_chars(&name, &about) {
        Command::About
    } else {
        Command::Other
    }
}

fn same_chars(a: &Vec<char>, b: &Vec<char>) -> (r: bool)
    ensures
        r == (a@ == b@),
{
    if a.len() != b.len() {
        return false;
    }
    let mut k: usize = 0;
    while k < a.len()
        invariant
            k <= a@.len(),
            a@.len() == b@.len(),
            a@.subrange(0, k as int) == b@.subrange(0, k as int),
        decreases a@.len() - k,
    {
        if a[k] != b[k] {
            assert(a@.subrange(0, k + 1)[k as int] != b@.subrange(0, k + 1)[k as int]);
            return false;
        }
        k = k + 1;
        assert(a@.subrange(0, k as int) =~= b@.subrange(0, k as int));
    }
    assert(a@ =~= a@.subrange(0, k as int));
    assert(b@ =~= b@.subrange(0, k as int));
    true
}

/// Where a command's argument ends: at the first entity that starts inside
/// `[start, end)`, or at `end`.
pub fn narrow_arg_end(entities: &Vec<MessageEntity>, start: usize, end: usize) -> (r: usize)
    ensures
        r <= end,
        r == end || exists|k: int| 0 <= k < entities@.len() && #[trigger] entities@[k].offset == r
            && start <= r,
        forall|k: int| 0 <= k < entities@.len() && start <= #[trigger] entities@[k].offset < end ==> r
            <= entities@[k].offset,
{
    let mut r = end;
    let mut k: usize = 0;
    while k < entities.len()
        invariant
            k <= entities@.len(),
            r <= end,
            r == end || exists|q: int| 0 <= q < entities@.len() && #[trigger] entities@[q].offset == r
                && start <= r,
            forall|q: int| 0 <= q < k && start <= #[trigger] entities@[q].offset < end ==> r
                <= entities@[q].offset,
        decreases entities@.len() - k,
    {
        let off = entities[k].offset;
        if start <= off && off < r {
            r = off;
        }
        k = k + 1;
    }
    r
}

/// `s` without white space at its start.
pub open spec fn trim_start(s: Seq<char>) -> Seq<char>
    decreases s.len(),
{
    if s.len() > 0 && white_space(s[0]) {
        trim_start(s.skip(1))
    } else {
        s
    }
}

/// `s` without white space at its end.
pub open spec fn trim_end(s: Seq<char>) -> Seq<char>
    decreases s.len(),
{
    if s.len() > 0 && white_space(s.last()) {
        trim_end(s.drop_last())
    } else {
        s
    }
}

fn is_white(c: char) -> (r: bool)
    ensures
        r == white_space(c),
{
    let x = c as u32;
    (0x9 <= x && x <= 0xd) || x == 0x20 || x == 0x85 || x == 0xa0 || x == 0x1680 || (0x2000 <= x
        && x <= 0x200a) || x == 0x2028 || x == 0x2029 || x == 0x202f || x == 0x205f || x == 0x3000
}

/// A command's argument, trimmed and in lower case; `None` where nothing but
/// white space is left.
pub fn clean_arg(x: &str) -> (r: Option<String>)
    ensures
        r is Some <==> trim_end(trim_start(x@)).len() > 0,
        r matches Some(s) ==> s@ == lower_of(trim_end(trim_start(x@))),
{
    let c = chars_of(x);
    let n = c.len();
    let mut i: usize = 0;
    assert(x@.skip(0) =~= x@);
    while i < n && is_white(c[i])
        invariant
            i <= n,
            n == c@.len(),
            c@ == x@,
            trim_start(x@) == trim_start(x@.skip(i as int)),
        decreases n - i,
    {
        assert(x@.skip(i as int).skip(1) =~= x@.skip(i + 1));
        i = i + 1;
    }
    assert(trim_start(x@.skip(i as int)) == x@.skip(i as int));
    let mut j: usize = n;
    while j > i && is_white(c[j - 1])
        invariant
            i <= j <= n,
            n == c@.len(),
            c@ == x@,
            trim_end(trim_start(x@)) == trim_end(x@.subrange(i as int, j as int)),
        decreases j,
    {
        assert(x@.subrange(i as int, j as int).drop_last() =~= x@.subrange(i as int, j - 1));
        j = j - 1;
    }
    assert(x@.skip(i as int) =~= x@.subrange(i as int, n as int));
    let ghost t = x@.subrange(i as int, j as int);
    assert(trim_end(t) == t);
    if i == j {
        return None;
    }
    let mut v: Vec<char> = Vec::new();
    let mut k: usize = i;
    while k < j
        invariant
            i <= k <= j <= n,
            n == c@.len(),
            v@ == c@.subrange(i as int, k as int),
        decreases j - k,
    {
        v.push(c[k]);
        k = k + 1;
        assert(v@ =~= c@.subrange(i as int, k as int));
    }
    let s = string_from_chars(&v);
    Some(lowercase(s.as_str()))
}

} // verus!
