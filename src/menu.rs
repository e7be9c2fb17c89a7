//! The bot's replies: reading the "tomorrow" time, and writing menu and about texts.

use crate::conf::Config;
use crate::conf::string_views;
use crate::levenshtein::best_alignment;
use crate::levenshtein::split_words;
use crate::levenshtein::wordwise_levenshtein;
use crate::levenshtein::views;
use crate::levenshtein::words_of;
use crate::text::chars_of;
use crate::text::decimal;
use crate::text::parse_u8;
use crate::text::string_from_chars;
use crate::tg::Message;
use crate::tg::OutgoingText;
use vstd::prelude::*;
use vstd::string::StrSliceExecFns;
use vstd::string::StringExecFns;

verus! {

/// The difference of the first field of two clock times (hours, minutes,
/// seconds) that differs, or 0.
pub open spec fn time_cmp_spec(x: (i32, i32, i32), y: (u8, u8, u8)) -> int {
    if x.0 != y.0 as i32 {
        x.0 - y.0
    } else if x.1 != y.1 as i32 {
        x.1 - y.1
    } else {
        x.2 - y.2
    }
}

/// Compares two clock times given as (hours, minutes, seconds).
pub fn time_cmp(x: (i32, i32, i32), y: (u8, u8, u8)) -> (r: i32)
    requires
        i32::MIN + 255 <= x.0,
        i32::MIN + 255 <= x.1,
        i32::MIN + 255 <= x.2,
    ensures
        r == time_cmp_spec(x, y),
{
    let mut r = x.0 - y.0 as i32;
    if r == 0 {
        r = x.1 - y.1 as i32;
        if r == 0 {
            r = x.2 - y.2 as i32;
        }
    }
    r
}

/// The parts of `s` between colons, empty ones included.
pub open spec fn pieces_of(s: Seq<char>) -> Seq<Seq<char>>
    decreases s.len(),
{
    if s.len() == 0 {
        seq![Seq::empty()]
    } else {
        let p = pieces_of(s.drop_last());
        if s.last() == ':' {
            p.push(Seq::empty())
        } else {
            p.update(p.len() - 1, p.last().push(s.last()))
        }
    }
}

proof fn lemma_pieces_nonempty(s: Seq<char>)
    ensures
        pieces_of(s).len() >= 1,
    decreases s.len(),
{
    if s.len() > 0 {
        lemma_pieces_nonempty(s.drop_last());
    }
}

pub open spec fn byte_value(p: Seq<char>) -> bool {
    decimal(p, false) matches Some(v) && v <= 255
}

pub open spec fn value_of(p: Seq<char>) -> u8 {
    decimal(p, false)->Some_0 as u8
}

/// The time that `s` writes as `h:m` or `h:m:s`, each part a number up to
/// 255, and the whole no later than 24:00:00.
pub open spec fn clock_time(s: Seq<char>) -> Option<(u8, u8, u8)> {
    let p = pieces_of(s);
    if 2 <= p.len() <= 3 && (forall|k: int| 0 <= k < p.len() ==> byte_value(#[trigger] p[k])) {
        let h = value_of(p[0]);
        let m = value_of(p[1]);
        let sec = if p.len() == 3 { value_of(p[2]) } else { 0 };
        if h < 24 || (h == 24 && m == 0 && sec == 0) {
            Some((h, m, sec))
        } else {
            None
        }
    } else {
        None
    }
}

fn colon_pieces(s: &Vec<char>) -> (r: Vec<Vec<char>>)
    ensures
        views(r@) == pieces_of(s@),
{
    let mut done: Vec<Vec<char>> = Vec::new();
    let mut cur: Vec<char> = Vec::new();
    let mut i: usize = 0;
    while i < s.len()
        invariant
            i <= s@.len(),
            pieces_of(s@.subrange(0, i as int)) == views(done@).push(cur@),
        decreases s@.len() - i,
    {
        let c = s[i];
        let ghost now = s@.subrange(0, i + 1);
        assert(now.drop_last() =~= s@.subrange(0, i as int));
        let ghost old_done = done@;
        let ghost old_cur = cur@;
        if c == ':' {
            done.push(cur);
            cur = Vec::new();
            assert(views(done@) =~= views(old_done).push(old_cur));
        } else {
            cur.push(c);
        }
        assert(views(done@).push(cur@) =~= pieces_of(now));
        i = i + 1;
    }
    assert(s@.subrange(0, s@.len() as int) =~= s@);
    let ghost old_done = done@;
    done.push(cur);
    assert(views(done@) =~= views(old_done).push(cur@));
    done
}

/// Reads the time of day from which the bot shows tomorrow's menu.
pub fn parse_tomorrow(tomorrow: &str) -> (r: Result<(u8, u8, u8), String>)
    ensures
        r matches Ok(t) ==> clock_time(tomorrow@) == Some(t),
        r is Err ==> clock_time(tomorrow@) is None,
        r matches Err(e) ==> e@ == "invalid timestamp '"@ + tomorrow@ + "'"@,
{
    let cs = chars_of(tomorrow);
    let ps = colon_pieces(&cs);
    let ghost p = pieces_of(tomorrow@);
    let n = ps.len();
    if 2 <= n && n <= 3 {
        let mut vals: Vec<u8> = Vec::new();
        let mut k: usize = 0;
        let mut all = true;
        while k < n
            invariant
                k <= n,
                n == ps@.len(),
                views(ps@) == p,
                all ==> vals@.len() == k,
                all ==> forall|q: int| 0 <= q < k ==> byte_value(#[trigger] p[q]) && vals@[q] == value_of(p[q]),
                !all ==> exists|q: int| 0 <= q < n && !byte_value(#[trigger] p[q]),
            decreases n - k,
        {
            let piece = string_from_chars(&ps[k]);
            assert(piece@ == p[k as int]);
            match parse_u8(piece.as_str()) {
                Some(v) => {
                    if all {
                        vals.push(v);
                    }
                },
                None => {
                    all = false;
                },
            }
            k = k + 1;
        }
        if all {
            let h = vals[0];
            let m = vals[1];
            let sec = if n == 3 { vals[2] } else { 0 };
            let t = (h, m, sec);
            if time_cmp((24, 0, 0), t) >= 0 {
                return Ok(t);
            }
        }
    }
    let mut e = String::from_str("invalid timestamp '");
    e.append(tomorrow);
    e.append("'");
    Err(e)
}

/// The words joined by single spaces.
pub open spec fn join_spaced(ws: Seq<Seq<char>>) -> Seq<char>
    decreases ws.len(),
{
    if ws.len() == 0 {
        Seq::empty()
    } else if ws.len() == 1 {
        ws[0]
    } else {
        join_spaced(ws.drop_last()) + seq![' '] + ws.last()
    }
}

/// `s` with leading and trailing white space dropped and each run of white
/// space inside it made one space.
pub fn strip_white(s: &str) -> (r: String)
    ensures
        r@ == join_spaced(words_of(s@)),
{
    let cs = chars_of(s);
    let ws = split_words(&cs, false);
    let ghost w = words_of(s@);
    let mut out: Vec<char> = Vec::new();
    let mut k: usize = 0;
    while k < ws.len()
        invariant
            k <= ws@.len(),
            views(ws@) == w,
            out@ == join_spaced(w.subrange(0, k as int)),
        decreases ws@.len() - k,
    {
        let ghost before = out@;
        if k > 0 {
            out.push(' ');
        }
        let word = &ws[k];
        let mut q: usize = 0;
        while q < word.len()
            invariant
                q <= word@.len(),
                out@ == before + (if k > 0 { seq![' '] } else { Seq::<char>::empty() }) + word@.subrange(0, q as int),
            decreases word@.len() - q,
        {
            out.push(word[q]);
            q = q + 1;
            assert(out@ =~= before + (if k > 0 { seq![' '] } else { Seq::<char>::empty() }) + word@.subrange(0, q as int));
        }
        let ghost now = w.subrange(0, k + 1);
        assert(now.drop_last() =~= w.subrange(0, k as int));
        assert(word@.subrange(0, q as int) =~= word@);
        assert(w[k as int] == word@);
        assert(out@ =~= join_spaced(now));
        k = k + 1;
    }
    assert(w.subrange(0, w.len() as int) =~= w);
    string_from_chars(&out)
}

/// A character as HTML text.
pub open spec fn escape_char(c: char) -> Seq<char> {
    if c == '&' {
        "&amp;"@
    } else if c == '<' {
        "&lt;"@
    } else if c == '>' {
        "&gt;"@
    } else {
        seq![c]
    }
}

/// `s` with `&`, `<` and `>` written as HTML entities.
pub open spec fn escaped(s: Seq<char>) -> Seq<char>
    decreases s.len(),
{
    if s.len() == 0 {
        Seq::empty()
    } else {
        escaped(s.drop_last()) + escape_char(s.last())
    }
}

fn escape_html(s: &str) -> (r: String)
    ensures
        r@ == escaped(s@),
{
    let cs = chars_of(s);
    let mut out = String::new();
    let mut k: usize = 0;
    while k < cs.len()
        invariant
            k <= cs@.len(),
            cs@ == s@,
            out@ == escaped(s@.subrange(0, k as int)),
        decreases cs@.len() - k,
    {
        let c = cs[k];
        if c == '&' {
            out.append("&amp;");
        } else if c == '<' {
            out.append("&lt;");
        } else if c == '>' {
            out.append("&gt;");
        } else {
            let mut one: Vec<char> = Vec::new();
            one.push(c);
            let t = string_from_chars(&one);
            out.append(t.as_str());
            assert(one@ =~= seq![c]);
        }
        assert(s@.subrange(0, k + 1).drop_last() =~= s@.subrange(0, k as int));
        k = k + 1;
    }
    assert(s@.subrange(0, s@.len() as int) =~= s@);
    out
}

/// How access is limited: by neither list, a deny list, an allow list, or both.
pub open spec fn access_text(allow_empty: bool, deny_empty: bool) -> Seq<char> {
    if allow_empty && deny_empty {
        "public"@
    } else if allow_empty {
        "blacklist"@
    } else if deny_empty {
        "whitelist"@
    } else {
        "whitelist, blacklist"@
    }
}

/// The names as HTML code, separated by commas.
pub open spec fn code_list(ms: Seq<Seq<char>>) -> Seq<char>
    decreases ms.len(),
{
    if ms.len() == 0 {
        Seq::empty()
    } else if ms.len() == 1 {
        "<code>"@ + escaped(ms[0]) + "</code>"@
    } else {
        code_list(ms.drop_last()) + ", "@ + "<code>"@ + escaped(ms.last()) + "</code>"@
    }
}

/// The patterns as HTML code, one per line.
pub open spec fn pattern_lines(ps: Seq<Seq<char>>) -> Seq<char>
    decreases ps.len(),
{
    if ps.len() == 0 {
        Seq::empty()
    } else {
        pattern_lines(ps.drop_last()) + "\n <code>"@ + escaped(ps.last()) + "</code>"@
    }
}

/// The text of the about reply.
pub open spec fn about_text(conf: Config) -> Seq<char> {
    let ms = conf.general.mensas@.map_values(|s: String| s@);
    let ps = conf.general.patterns@.map_values(|s: String| s@);
    let allow_empty = conf.allow.chats().is_empty() && conf.allow.ids().is_empty()
        && conf.allow.users().is_empty();
    let deny_empty = conf.deny.chats().is_empty() && conf.deny.ids().is_empty()
        && conf.deny.users().is_empty();
    "<b>Copyright 2017-2018 Schnusch</b>\nhttps://www.github.com/schnusch/mensabot/\n\naccess: "@
        + access_text(allow_empty, deny_empty) + "\ndefault: "@ + code_list(ms)
        + "\ntomorrow: <code>"@ + conf.general.tomorrow@ + "</code>"@ + if ps.len() > 0 {
        "\npatterns:"@ + pattern_lines(ps)
    } else {
        Seq::empty()
    }
}

/// The reply to the about command: who wrote the bot, how access is limited,
/// and the settings, as HTML, without a notification.
pub fn make_about_text(msg: &Message, conf: &Config) -> (r: OutgoingText)
    ensures
        r.chat_id == msg.chat.id,
        r.reply_to_message_id == Some(msg.message_id),
        r.text@ == about_text(*conf),
        r.disable_notification,
        r.parse_mode matches Some(p) && p@ == "html"@,
{
    let ghost ms = conf.general.mensas@.map_values(|s: String| s@);
    let ghost ps = conf.general.patterns@.map_values(|s: String| s@);
    let mut txt = String::from_str(
        "<b>Copyright 2017-2018 Schnusch</b>\nhttps://www.github.com/schnusch/mensabot/\n\naccess: ",
    );
    let allow_empty = conf.allow.is_empty();
    let deny_empty = conf.deny.is_empty();
    if allow_empty && deny_empty {
        txt.append("public");
    } else if allow_empty {
        txt.append("blacklist");
    } else if deny_empty {
        txt.append("whitelist");
    } else {
        txt.append("whitelist, blacklist");
    }
    txt.append("\ndefault: ");
    let ghost head = txt@;
    let mut k: usize = 0;
    while k < conf.general.mensas.len()
        invariant
            k <= ms.len(),
            ms == conf.general.mensas@.map_values(|s: String| s@),
            txt@ == head + code_list(ms.subrange(0, k as int)),
        decreases ms.len() - k,
    {
        if k > 0 {
            txt.append(", ");
        }
        txt.append("<code>");
        let e = escape_html(conf.general.mensas[k].as_str());
        txt.append(e.as_str());
        txt.append("</code>");
        let ghost now = ms.subrange(0, k + 1);
        assert(now.drop_last() =~= ms.subrange(0, k as int));
        assert(txt@ =~= head + code_list(now));
        k = k + 1;
    }
    assert(ms.subrange(0, ms.len() as int) =~= ms);
    txt.append("\ntomorrow: <code>");
    txt.append(conf.general.tomorrow.as_str());
    txt.append("</code>");
    let ghost mid = txt@;
    if conf.general.patterns.len() > 0 {
        txt.append("\npatterns:");
        let ghost head2 = txt@;
        let mut q: usize = 0;
        while q < conf.general.patterns.len()
            invariant
                q <= ps.len(),
                ps == conf.general.patterns@.map_values(|s: String| s@),
                txt@ == head2 + pattern_lines(ps.subrange(0, q as int)),
            decreases ps.len() - q,
        {
            txt.append("\n <code>");
            let e = escape_html(conf.general.patterns[q].as_str());
            txt.append(e.as_str());
            txt.append("</code>");
            let ghost now = ps.subrange(0, q + 1);
            assert(now.drop_last() =~= ps.subrange(0, q as int));
            assert(txt@ =~= head2 + pattern_lines(now));
            q = q + 1;
        }
        assert(ps.subrange(0, ps.len() as int) =~= ps);
        assert(txt@ =~= about_text(*conf));
    } else {
        assert(txt@ =~= about_text(*conf));
    }
    let mut re = msg.reply_text(txt);
    re.disable_notification = true;
    re.parse_mode = Some(String::from_str("html"));
    re
}

/// Code points ordered lexicographically, a proper prefix first; the order of
/// their UTF-8 bytes, and so of `str`.
pub open spec fn lex_lt(a: Seq<char>, b: Seq<char>) -> bool
    decreases a.len(),
{
    if a.len() == 0 {
        b.len() > 0
    } else if b.len() == 0 {
        false
    } else if a[0] != b[0] {
        a[0] < b[0]
    } else {
        lex_lt(a.skip(1), b.skip(1))
    }
}

proof fn lemma_lex_irreflexive(a: Seq<char>)
    ensures
        !lex_lt(a, a),
    decreases a.len(),
{
    if a.len() > 0 {
        lemma_lex_irreflexive(a.skip(1));
    }
}

proof fn lemma_lex_trichotomy(a: Seq<char>, b: Seq<char>)
    ensures
        a != b ==> lex_lt(a, b) || lex_lt(b, a),
        !(lex_lt(a, b) && lex_lt(b, a)),
    decreases a.len(),
{
    if a.len() > 0 && b.len() > 0 {
        lemma_lex_trichotomy(a.skip(1), b.skip(1));
        if a[0] == b[0] && a != b {
            assert(a =~= seq![a[0]] + a.skip(1));
            assert(b =~= seq![b[0]] + b.skip(1));
        }
    } else if a.len() == 0 && b.len() == 0 {
        assert(a =~= b);
    }
}

proof fn lemma_lex_transitive(a: Seq<char>, b: Seq<char>, c: Seq<char>)
    requires
        lex_lt(a, b),
        lex_lt(b, c),
    ensures
        lex_lt(a, c),
    decreases a.len(),
{
    if a.len() > 0 && b.len() > 0 && c.len() > 0 && a[0] == b[0] && b[0] == c[0] {
        lemma_lex_transitive(a.skip(1), b.skip(1), c.skip(1));
    }
}

/// A cafeteria as a search found it: how well its name matched, and the name.
pub struct MensaMatch {
    pub similarity: usize,
    pub name: String,
}

/// The key that orders matches.
pub open spec fn key_of(m: MensaMatch) -> (int, Seq<char>) {
    (m.similarity as int, m.name@)
}

/// The ranking: a higher similarity first, then names in order.
pub open spec fn ranks_before(x: (int, Seq<char>), y: (int, Seq<char>)) -> bool {
    x.0 > y.0 || (x.0 == y.0 && lex_lt(x.1, y.1))
}

proof fn lemma_rank_order(x: (int, Seq<char>), y: (int, Seq<char>), z: (int, Seq<char>))
    ensures
        !ranks_before(x, x),
        x != y ==> ranks_before(x, y) || ranks_before(y, x),
        !(ranks_before(x, y) && ranks_before(y, x)),
        ranks_before(x, y) && ranks_before(y, z) ==> ranks_before(x, z),
{
    lemma_lex_irreflexive(x.1);
    lemma_lex_trichotomy(x.1, y.1);
    if ranks_before(x, y) && ranks_before(y, z) && x.0 == y.0 && y.0 == z.0 {
        lemma_lex_transitive(x.1, y.1, z.1);
    }
}

fn lex_less(a: &Vec<char>, b: &Vec<char>) -> (r: bool)
    ensures
        r == lex_lt(a@, b@),
{
    let mut k: usize = 0;
    assert(a@.skip(0) =~= a@);
    assert(b@.skip(0) =~= b@);
    while k < a.len() && k < b.len() && a[k] == b[k]
        invariant
            k <= a@.len(),
            k <= b@.len(),
            lex_lt(a@, b@) == lex_lt(a@.skip(k as int), b@.skip(k as int)),
        decreases a@.len() - k,
    {
        let ghost sa = a@.skip(k as int);
        let ghost sb = b@.skip(k as int);
        assert(sa.skip(1) =~= a@.skip(k + 1));
        assert(sb.skip(1) =~= b@.skip(k + 1));
        k = k + 1;
    }
    if k == a.len() {
        k < b.len()
    } else if k == b.len() {
        false
    } else {
        a[k] < b[k]
    }
}

impl MensaMatch {
    /// Whether `self` ranks before `other`.
    pub fn ranks_first(&self, other: &MensaMatch) -> (r: bool)
        ensures
            r == ranks_before(key_of(*self), key_of(*other)),
    {
        match self.cmp(other) {
            core::cmp::Ordering::Less => true,
            _ => false,
        }
    }

    /// The ranking order: `Less` where `self` ranks first, `Equal` where the
    /// similarity and the name are both the same.
    pub fn cmp(&self, other: &MensaMatch) -> (r: core::cmp::Ordering)
        ensures
            r == core::cmp::Ordering::Less <==> ranks_before(key_of(*self), key_of(*other)),
            r == core::cmp::Ordering::Equal <==> key_of(*self) == key_of(*other),
            r == core::cmp::Ordering::Greater <==> ranks_before(key_of(*other), key_of(*self)),
    {
        proof {
            lemma_rank_order(key_of(*self), key_of(*other), key_of(*other));
        }
        if self.similarity > other.similarity {
            core::cmp::Ordering::Less
        } else if self.similarity < other.similarity {
            core::cmp::Ordering::Greater
        } else {
            let a = chars_of(self.name.as_str());
            let b = chars_of(other.name.as_str());
            if lex_less(&a, &b) {
                core::cmp::Ordering::Less
            } else if lex_less(&b, &a) {
                core::cmp::Ordering::Greater
            } else {
                core::cmp::Ordering::Equal
            }
        }
    }
}

/// A menu entry as values: the match's key and the meals.
pub open spec fn entry_view(e: (MensaMatch, Vec<String>)) -> ((int, Seq<char>), Seq<Seq<char>>) {
    (key_of(e.0), e.1@.map_values(|s: String| s@))
}

/// Cafeterias with their meals, in ranking order, each key once.
pub struct Menu {
    entries: Vec<(MensaMatch, Vec<String>)>,
}

impl Menu {
    pub closed spec fn entries(&self) -> Seq<((int, Seq<char>), Seq<Seq<char>>)> {
        self.entries@.map_values(|e: (MensaMatch, Vec<String>)| entry_view(e))
    }

    /// The entries stand in strict ranking order.
    pub open spec fn wf(&self) -> bool {
        forall|i: int, j: int|
            0 <= i < j < self.entries().len() ==> ranks_before(
                #[trigger] self.entries()[i].0,
                #[trigger] self.entries()[j].0,
            )
    }

    pub fn new() -> (r: Menu)
        ensures
            r.wf(),
            r.entries().len() == 0,
    {
        Menu { entries: Vec::new() }
    }

    /// The number of cafeterias.
    pub fn len(&self) -> (r: usize)
        ensures
            r == self.entries().len(),
    {
        self.entries.len()
    }

    /// Adds a cafeterias's meals under its match, in place of what that match had.
    pub fn insert(&mut self, m: MensaMatch, meals: Vec<String>)
        requires
            old(self).wf(),
        ensures
            final(self).wf(),
            final(self).entries().contains(entry_view((m, meals))),
            forall|e| #[trigger] old(self).entries().contains(e) && e.0 != key_of(m) ==> final(self).entries().contains(e),
            forall|e| #[trigger] final(self).entries().contains(e) ==> e == entry_view((m, meals))
                || old(self).entries().contains(e),
    {
        let ghost key = key_of(m);
        let ghost olds = self.entries();
        let ghost ne = entry_view((m, meals));
        let n = self.entries.len();
        let mut p: usize = 0;
        while p < n && self.entries[p].0.ranks_first(&m)
            invariant
                p <= n,
                n == self.entries@.len(),
                olds == self.entries(),
                key == key_of(m),
                forall|q: int| 0 <= q < p ==> ranks_before(#[trigger] olds[q].0, key),
            decreases n - p,
        {
            p = p + 1;
        }
        assert(p < n ==> !ranks_before(olds[p as int].0, key));
        let same = p < n && match self.entries[p].0.cmp(&m) {
            core::cmp::Ordering::Equal => true,
            _ => false,
        };
        if same {
            let _ = self.entries.remove(p);
        }
        self.entries.insert(p, (m, meals));
        proof {
            let news = self.entries();
            if same {
                assert(news =~= olds.update(p as int, ne));
            } else {
                assert(news =~= olds.insert(p as int, ne));
            }
            assert(news[p as int] == ne);
            if p < n {
                lemma_rank_order(key, olds[p as int].0, key);
                if !same {
                    assert(key != olds[p as int].0);
                    assert(ranks_before(key, olds[p as int].0));
                }
            }
            assert forall|i: int, j: int| 0 <= i < j < news.len() implies ranks_before(
                #[trigger] news[i].0,
                #[trigger] news[j].0,
            ) by {
                let oi = if same || i < p { i } else { i - 1 };
                let oj = if same || j < p { j } else { j - 1 };
                if i != p && j != p {
                    assert(news[i] == olds[oi]);
                    assert(news[j] == olds[oj]);
                    assert(oi < oj);
                } else if i == p {
                    assert(news[j] == olds[oj]);
                    if same {
                        assert(ranks_before(olds[p as int].0, olds[oj].0));
                    } else if oj > p {
                        assert(ranks_before(olds[p as int].0, olds[oj].0));
                        lemma_rank_order(key, olds[p as int].0, olds[oj].0);
                    }
                } else {
                    assert(news[i] == olds[oi]);
                    assert(ranks_before(olds[i].0, key));
                }
            }
            assert forall|e| #[trigger] olds.contains(e) && e.0 != key implies news.contains(e) by {
                let i = choose|i: int| 0 <= i < olds.len() && olds[i] == e;
                if same {
                    assert(i != p);
                    assert(news[i] == e);
                } else if i < p {
                    assert(news[i] == e);
                } else {
                    assert(news[i + 1] == e);
                }
            }
            assert forall|e| #[trigger] news.contains(e) implies e == ne || olds.contains(e) by {
                let i = choose|i: int| 0 <= i < news.len() && news[i] == e;
                if i != p {
                    if same || i < p {
                        assert(olds[i] == e);
                    } else {
                        assert(olds[i - 1] == e);
                    }
                }
            }
            assert(news.contains(ne));
        }
    }
}

/// The most bytes of text that one menu message holds before it is cut.
pub const MESSAGE_LIMIT: usize = 4093;

/// The number of bytes of a character in UTF-8.
pub open spec fn utf8_width(c: char) -> nat {
    let x = c as u32;
    if x < 0x80 {
        1
    } else if x < 0x800 {
        2
    } else if x < 0x10000 {
        3
    } else {
        4
    }
}

/// The number of bytes of a text in UTF-8.
pub open spec fn utf8_len(s: Seq<char>) -> nat
    decreases s.len(),
{
    if s.len() == 0 {
        0
    } else {
        utf8_len(s.drop_last()) + utf8_width(s.last())
    }
}

proof fn lemma_utf8_concat(a: Seq<char>, b: Seq<char>)
    ensures
        utf8_len(a + b) == utf8_len(a) + utf8_len(b),
    decreases b.len(),
{
    if b.len() > 0 {
        assert((a + b).drop_last() =~= a + b.drop_last());
        lemma_utf8_concat(a, b.drop_last());
    }
}

/// The meals, each on a line of its own behind ` * `.
pub open spec fn meal_lines(ms: Seq<Seq<char>>) -> Seq<char>
    decreases ms.len(),
{
    if ms.len() == 0 {
        Seq::empty()
    } else {
        meal_lines(ms.drop_last()) + "\n * "@ + ms.last()
    }
}

/// One cafeteria's part of the message: its name, its meals, an empty line.
pub open spec fn block(e: ((int, Seq<char>), Seq<Seq<char>>)) -> Seq<char> {
    e.0.1 + meal_lines(e.1) + "\n\n"@
}

/// The blocks of the entries of similarity `top` that stand first, added to
/// `acc` while the text stays within the limit; at the first that would pass
/// it, a `...` line in its place ends the text.
pub open spec fn render(es: Seq<((int, Seq<char>), Seq<Seq<char>>)>, top: int, acc: Seq<char>) -> Seq<
    char,
>
    decreases es.len(),
{
    if es.len() == 0 || es[0].0.0 != top {
        acc
    } else if utf8_len(acc + block(es[0])) > MESSAGE_LIMIT {
        acc + "...\n\n"@
    } else {
        render(es.skip(1), top, acc + block(es[0]))
    }
}

/// The menu message: the best-ranked group of cafeterias, without the final
/// empty line.
pub open spec fn menu_message(es: Seq<((int, Seq<char>), Seq<Seq<char>>)>) -> Seq<char> {
    let t = if es.len() == 0 {
        Seq::empty()
    } else {
        render(es, es[0].0.0, Seq::empty())
    };
    if t.len() >= 2 {
        t.subrange(0, t.len() - 2)
    } else {
        t
    }
}

fn push_str(v: &mut Vec<char>, s: &str)
    ensures
        final(v)@ == old(v)@ + s@,
{
    let cs = chars_of(s);
    let mut k: usize = 0;
    while k < cs.len()
        invariant
            k <= cs@.len(),
            cs@ == s@,
            v@ == old(v)@ + s@.subrange(0, k as int),
        decreases cs@.len() - k,
    {
        v.push(cs[k]);
        k = k + 1;
        assert(v@ =~= old(v)@ + s@.subrange(0, k as int));
    }
    assert(s@.subrange(0, s@.len() as int) =~= s@);
}

fn char_width(c: char) -> (r: usize)
    ensures
        r == utf8_width(c),
{
    let x = c as u32;
    if x < 0x80 {
        1
    } else if x < 0x800 {
        2
    } else if x < 0x10000 {
        3
    } else {
        4
    }
}

/// The byte count of `used` bytes followed by `blk`, where it stays within the limit.
fn within_limit(used: usize, blk: &Vec<char>) -> (r: Option<usize>)
    requires
        used <= MESSAGE_LIMIT,
    ensures
        used + utf8_len(blk@) <= MESSAGE_LIMIT ==> r == Some((used + utf8_len(blk@)) as usize),
        used + utf8_len(blk@) > MESSAGE_LIMIT ==> r is None,
{
    let mut total = used;
    let mut k: usize = 0;
    while k < blk.len()
        invariant
            k <= blk@.len(),
            total == used + utf8_len(blk@.subrange(0, k as int)),
            total <= MESSAGE_LIMIT,
        decreases blk@.len() - k,
    {
        proof {
            assert(blk@.subrange(0, k + 1).drop_last() =~= blk@.subrange(0, k as int));
        }
        total = total + char_width(blk[k]);
        k = k + 1;
        if total > MESSAGE_LIMIT {
            proof {
                let pre = blk@.subrange(0, k as int);
                assert(blk@ =~= pre + blk@.subrange(k as int, blk@.len() as int));
                lemma_utf8_concat(pre, blk@.subrange(k as int, blk@.len() as int));
            }
            return None;
        }
    }
    assert(blk@.subrange(0, k as int) =~= blk@);
    Some(total)
}

impl Menu {
    /// The message that presents the menu: the cafeterias that share the
    /// best similarity with their meals, cut with `...` where the text would
    /// pass the limit.
    pub fn create_menu_message(&self) -> (r: String)
        ensures
            r@ == menu_message(self.entries()),
    {
        let ghost es = self.entries();
        let n = self.entries.len();
        let mut out: Vec<char> = Vec::new();
        if n > 0 {
            let top = self.entries[0].0.similarity;
            let mut used: usize = 0;
            let mut k: usize = 0;
            let mut cut = false;
            assert(es.skip(0) =~= es);
            while k < n && !cut && self.entries[k].0.similarity == top
                invariant
                    k <= n,
                    n == es.len(),
                    es == self.entries(),
                    top == es[0].0.0,
                    !cut ==> used == utf8_len(out@),
                    used <= MESSAGE_LIMIT,
                    !cut ==> render(es, top as int, Seq::empty()) == render(es.skip(k as int), top as int, out@),
                    cut ==> render(es, top as int, Seq::empty()) == out@,
                decreases n - k,
            {
                let e = &self.entries[k];
                let mut blk: Vec<char> = Vec::new();
                push_str(&mut blk, e.0.name.as_str());
                let mut q: usize = 0;
                let ghost meals = es[k as int].1;
                while q < e.1.len()
                    invariant
                        q <= e.1@.len(),
                        meals == e.1@.map_values(|s: String| s@),
                        blk@ == e.0.name@ + meal_lines(meals.subrange(0, q as int)),
                    decreases e.1@.len() - q,
                {
                    push_str(&mut blk, "\n * ");
                    push_str(&mut blk, e.1[q].as_str());
                    assert(meals.subrange(0, q + 1).drop_last() =~= meals.subrange(0, q as int));
                    assert(blk@ =~= e.0.name@ + meal_lines(meals.subrange(0, q + 1)));
                    q = q + 1;
                }
                assert(meals.subrange(0, q as int) =~= meals);
                push_str(&mut blk, "\n\n");
                assert(blk@ == block(es[k as int]));
                let ghost rest = es.skip(k as int);
                assert(rest[0] == es[k as int]);
                assert(rest.skip(1) =~= es.skip(k + 1));
                proof {
                    lemma_utf8_concat(out@, blk@);
                }
                match within_limit(used, &blk) {
                    Some(t) => {
                        let ghost before = out@;
                        let mut q2: usize = 0;
                        while q2 < blk.len()
                            invariant
                                q2 <= blk@.len(),
                                out@ == before + blk@.subrange(0, q2 as int),
                            decreases blk@.len() - q2,
                        {
                            out.push(blk[q2]);
                            q2 = q2 + 1;
                            assert(out@ =~= before + blk@.subrange(0, q2 as int));
                        }
                        assert(blk@.subrange(0, q2 as int) =~= blk@);
                        used = t;
                    },
                    None => {
                        push_str(&mut out, "...\n\n");
                        cut = true;
                    },
                }
                k = k + 1;
            }
            assert(!cut && k < n ==> es.skip(k as int)[0] == es[k as int]);
        }
        let len = out.len();
        if len >= 2 {
            out.truncate(len - 2);
        }
        string_from_chars(&out)
    }
}

/// A text in lower case, as `str::to_lowercase` writes it.
pub uninterp spec fn lower_of(s: Seq<char>) -> Seq<char>;

/// Relies on `str::to_lowercase`: the lower-case form of the text, which
/// depends on its characters alone.
#[verifier::external_body]
pub(crate) fn lowercase(s: &str) -> (r: String)
    ensures
        r@ == lower_of(s@),
{
    s.to_lowercase()
}

/// A cafeteria heading without the `Angebote ` ("offers") that may lead it.
pub open spec fn strip_offer(h: Seq<char>) -> Seq<char> {
    if h.len() >= 9 && h.subrange(0, 9) == "Angebote "@ {
        h.skip(9)
    } else {
        h
    }
}

/// How a cafeteria heading matches a search: without a search term, only
/// the default cafeterias match, each with similarity 0; with one, every
/// cafeteria matches with the word-wise similarity of the term to its name in
/// lower case (none where the two are too long to count).
pub fn mensa_match(heading: &str, arg: Option<&str>, mensas: &Vec<String>) -> (r: Option<MensaMatch>)
    ensures
        r matches Some(m) ==> m.name@ == strip_offer(heading@),
        arg is None ==> (r is Some <==> string_views(mensas@).contains(strip_offer(heading@))),
        arg is None && r is Some ==> r->Some_0.similarity == 0,
        arg matches Some(x) ==> (r is Some <==> x@.len() + lower_of(strip_offer(heading@)).len()
            < usize::MAX),
        arg is Some && r is Some ==> r->Some_0.similarity == best_alignment(
            arg->Some_0@,
            lower_of(strip_offer(heading@)),
        ),
{
    let prefix = chars_of("Angebote ");
    let hs = chars_of(heading);
    let n = hs.len();
    let mut starts = n >= 9;
    let mut k: usize = 0;
    proof {
        reveal_strlit("Angebote ");
    }
    while k < 9 && starts
        invariant
            k <= 9,
            prefix@.len() == 9,
            prefix@ == "Angebote "@,
            hs@ == heading@,
            n == hs@.len(),
            starts ==> n >= 9 && hs@.subrange(0, k as int) == prefix@.subrange(0, k as int),
            !starts ==> strip_offer(heading@) == heading@,
        decreases 9 - k,
    {
        proof {
            reveal_strlit("Angebote ");
        }
        if hs[k] != prefix[k] {
            starts = false;
            assert(heading@.subrange(0, 9)[k as int] != "Angebote "@[k as int]);
        } else {
            assert(hs@.subrange(0, k + 1) =~= prefix@.subrange(0, k + 1));
        }
        k = k + 1;
    }
    proof {
        reveal_strlit("Angebote ");
        if starts {
            assert(prefix@.subrange(0, 9) =~= prefix@);
        }
    }
    assert(starts ==> heading@.subrange(0, 9) == "Angebote "@);
    let name = if starts {
        assert(heading@.subrange(9, n as int) =~= heading@.skip(9));
        String::from_str(heading.substring_char(9, n))
    } else {
        String::from_str(heading)
    };
    match arg {
        None => {
            let mut q: usize = 0;
            while q < mensas.len()
                invariant
                    q <= mensas@.len(),
                    name@ == strip_offer(heading@),
                    arg is None,
                    forall|i: int| 0 <= i < q ==> string_views(mensas@)[i] != name@,
                decreases mensas@.len() - q,
            {
                if mensas[q].eq(&name) {
                    assert(string_views(mensas@)[q as int] == name@);
                    return Some(MensaMatch { similarity: 0, name });
                }
                q = q + 1;
            }
            None
        },
        Some(x) => {
            let lowered = lowercase(name.as_str());
            let lx = x.unicode_len();
            let ll = lowered.as_str().unicode_len();
            if lx < usize::MAX - ll {
                let sim = wordwise_levenshtein(x, lowered.as_str());
                Some(MensaMatch { similarity: sim, name })
            } else {
                None
            }
        },
    }
}

/// The reply to the menu command: the menu message, or where the menu could
/// not be fetched a note with the page's address; without a notification.
pub fn make_menu_text(msg: &Message, menu: Option<&Menu>, url: &str) -> (r: OutgoingText)
    ensures
        r.chat_id == msg.chat.id,
        r.reply_to_message_id == Some(msg.message_id),
        r.disable_notification,
        r.parse_mode is None,
        menu matches Some(m) ==> r.text@ == menu_message(m.entries()),
        menu is None ==> r.text@ == "Speiseplan konnte nicht abgerufen werden!\n"@ + url@,
{
    let txt = match menu {
        Some(m) => m.create_menu_message(),
        None => {
            let mut t = String::from_str("Speiseplan konnte nicht abgerufen werden!\n");
            t.append(url);
            t
        },
    };
    let mut re = msg.reply_text(txt);
    re.disable_notification = true;
    re
}

/// Relies on `time::now`: the local time of day, each field in the range
/// that `time::Tm` documents.
#[verifier::external_body]
fn clock_now() -> (r: (i32, i32, i32))
    ensures
        0 <= r.0 <= 23,
        0 <= r.1 <= 59,
        0 <= r.2 <= 60,
{
    let t = time::now();
    (t.tm_hour, t.tm_min, t.tm_sec)
}

/// The page of today's menu, or of tomorrow's from the time `tomorrow` on.
pub fn menu_url(now: (i32, i32, i32), tomorrow: (u8, u8, u8)) -> (r: &'static str)
    requires
        i32::MIN + 255 <= now.0,
        i32::MIN + 255 <= now.1,
        i32::MIN + 255 <= now.2,
    ensures
        time_cmp_spec(now, tomorrow) >= 0 ==> r@
            == "https://www.studentenwerk-dresden.de/mensen/speiseplan/morgen.html"@,
        time_cmp_spec(now, tomorrow) < 0 ==> r@
            == "https://www.studentenwerk-dresden.de/mensen/speiseplan/"@,
{
    if time_cmp(now, tomorrow) >= 0 {
        "https://www.studentenwerk-dresden.de/mensen/speiseplan/morgen.html"
    } else {
        "https://www.studentenwerk-dresden.de/mensen/speiseplan/"
    }
}

/// The menu page for the current time.
pub fn get_menu_url(tomorrow: (u8, u8, u8)) -> (r: &'static str)
    ensures
        r@ == "https://www.studentenwerk-dresden.de/mensen/speiseplan/morgen.html"@ || r@
            == "https://www.studentenwerk-dresden.de/mensen/speiseplan/"@,
{
    let now = clock_now();
    menu_url(now, tomorrow)
}

} // verus!
