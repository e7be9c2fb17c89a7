//! The bot's configuration: general settings, the retry rule, and access lists.

use crate::text::decimal;
use crate::text::parse_i64;
use crate::tg::Message;
use crate::tg::User;
use std::collections::BTreeSet;
use vstd::prelude::*;
use vstd::string::StrSliceExecFns;
use vstd::string::StringExecFns;

verus! {

broadcast use {vstd::laws_cmp::group_laws_cmp, vstd::std_specs::btree::group_btree_axioms};

pub struct ConfigGeneral {
    pub token: String,
    pub tomorrow: String,
    pub retries: u64,
    pub retrywait: u64,
    pub mensas: Vec<String>,
    pub patterns: Vec<String>,
}

/// What to do after an attempt failed.
#[derive(Clone, Copy, Debug, PartialEq, Eq, Structural)]
pub enum RetryAction {
    /// Stop trying.
    GiveUp,
    /// Try again at once; the failure is not counted.
    RetryNow,
    /// Wait this many seconds, then try again.
    RetryAfter(u64),
}

impl ConfigGeneral {
    pub fn default_tomorrow() -> (r: String)
        ensures
            r@ == "20:00:00"@,
    {
        String::from_str("20:00:00")
    }

    pub fn default_retries() -> (r: u64)
        ensures
            r == 3,
    {
        3
    }

    pub fn default_retrywait() -> (r: u64)
        ensures
            r == 30,
    {
        30
    }

    pub fn default_mensas() -> (r: Vec<String>)
        ensures
            r@.len() == 2,
            r@[0]@ == "Alte Mensa"@,
            r@[1]@ == "Zeltschlösschen"@,
    {
        let mut v: Vec<String> = Vec::new();
        v.push(String::from_str("Alte Mensa"));
        v.push(String::from_str("Zeltschlösschen"));
        v
    }

    /// The step after a failed attempt, given the failures counted before it,
    /// with the new count: give up once `retries` failures are counted (never
    /// where `retries` is 0), retry at once without counting where `retrywait`
    /// is 0, and else wait `retrywait` seconds.
    pub fn after_failure(&self, fails: u64) -> (r: (RetryAction, u64))
        requires
            fails < u64::MAX,
        ensures
            fails + 1 >= self.retries && self.retries > 0 ==> r == (RetryAction::GiveUp, (fails
                + 1) as u64),
            !(fails + 1 >= self.retries && self.retries > 0) && self.retrywait == 0 ==> r == (
                RetryAction::RetryNow,
                fails,
            ),
            !(fails + 1 >= self.retries && self.retries > 0) && self.retrywait != 0 ==> r == (
                RetryAction::RetryAfter(self.retrywait),
                (fails + 1) as u64,
            ),
    {
        let counted = fails + 1;
        if counted >= self.retries && self.retries > 0 {
            (RetryAction::GiveUp, counted)
        } else if self.retrywait == 0 {
            (RetryAction::RetryNow, fails)
        } else {
            (RetryAction::RetryAfter(self.retrywait), counted)
        }
    }
}

/// A user entry that is a number in the range of `i64`: a user id.
pub open spec fn numeric(e: Seq<char>) -> bool {
    decimal(e, true) matches Some(v) && i64::MIN <= v <= i64::MAX
}

/// A user name entry without its leading `@`, if it has one.
pub open spec fn strip_at(e: Seq<char>) -> Seq<char> {
    if e.len() > 0 && e[0] == '@' {
        e.skip(1)
    } else {
        e
    }
}

/// The user names that the entries give, once ids are taken out.
pub open spec fn unpacked_names(es: Seq<Seq<char>>) -> Seq<Seq<char>>
    decreases es.len(),
{
    if es.len() == 0 {
        Seq::empty()
    } else if numeric(es.last()) {
        unpacked_names(es.drop_last())
    } else {
        unpacked_names(es.drop_last()).push(strip_at(es.last()))
    }
}

/// The user ids that the entries give.
pub open spec fn unpacked_ids(es: Seq<Seq<char>>) -> Set<i64>
    decreases es.len(),
{
    if es.len() == 0 {
        Set::empty()
    } else if numeric(es.last()) {
        unpacked_ids(es.drop_last()).insert(decimal(es.last(), true)->Some_0 as i64)
    } else {
        unpacked_ids(es.drop_last())
    }
}

pub open spec fn string_views(v: Seq<String>) -> Seq<Seq<char>> {
    v.map_values(|s: String| s@)
}

/// Who may or may not use the bot: chats by id, users by id or by name.
pub struct ConfigAccess {
    chatids: BTreeSet<i64>,
    usernames: Vec<String>,
    userids: BTreeSet<i64>,
}

impl ConfigAccess {
    pub closed spec fn chats(&self) -> Set<i64> {
        self.chatids@
    }

    pub closed spec fn ids(&self) -> Set<i64> {
        self.userids@
    }

    /// The user name entries, in order.
    pub closed spec fn names(&self) -> Seq<Seq<char>> {
        string_views(self.usernames@)
    }

    pub open spec fn users(&self) -> Set<Seq<char>> {
        self.names().to_set()
    }

    /// Whether the list names the user, by id or by user name.
    pub open spec fn has_user(&self, user: Option<User>) -> bool {
        match user {
            None => false,
            Some(u) => self.ids().contains(u.id) || match u.username {
                None => false,
                Some(n) => self.users().contains(n@),
            },
        }
    }

    /// An empty list.
    pub fn new() -> (r: ConfigAccess)
        ensures
            r.chats() == Set::<i64>::empty(),
            r.ids() == Set::<i64>::empty(),
            r.names() == Seq::<Seq<char>>::empty(),
    {
        let r = ConfigAccess { chatids: BTreeSet::new(), usernames: Vec::new(), userids: BTreeSet::new() };
        assert(r.names() =~= Seq::<Seq<char>>::empty());
        r
    }

    /// A list of chat ids and of user entries as written, before `unpack`.
    pub fn from_lists(chats: Vec<i64>, users: Vec<String>) -> (r: ConfigAccess)
        ensures
            r.chats() == chats@.to_set(),
            r.ids() == Set::<i64>::empty(),
            r.names() == string_views(users@),
    {
        let mut chatids: BTreeSet<i64> = BTreeSet::new();
        let mut k: usize = 0;
        while k < chats.len()
            invariant
                k <= chats@.len(),
                chatids@ == chats@.subrange(0, k as int).to_set(),
            decreases chats@.len() - k,
        {
            chatids.insert(chats[k]);
            proof {
                assert(chats@.subrange(0, k + 1) =~= chats@.subrange(0, k as int).push(chats@[k as int]));
                chats@.subrange(0, k as int).lemma_push_to_set_commute(chats@[k as int]);
            }
            k = k + 1;
        }
        assert(chats@.subrange(0, chats@.len() as int) =~= chats@);
        ConfigAccess { chatids, usernames: users, userids: BTreeSet::new() }
    }

    /// Moves the entries that are numbers to the user ids, and takes the
    /// leading `@` off the others.
    pub fn unpack(&mut self)
        ensures
            final(self).chats() == old(self).chats(),
            final(self).ids() == old(self).ids() + unpacked_ids(old(self).names()),
            final(self).names() == unpacked_names(old(self).names()),
    {
        let ghost es = self.names();
        let mut names: Vec<String> = Vec::new();
        let mut k: usize = 0;
        while k < self.usernames.len()
            invariant
                k <= self.usernames@.len(),
                es == string_views(self.usernames@),
                string_views(names@) == unpacked_names(es.subrange(0, k as int)),
                self.userids@ == old(self).userids@ + unpacked_ids(es.subrange(0, k as int)),
                self.chatids@ == old(self).chatids@,
            decreases self.usernames@.len() - k,
        {
            let e = self.usernames[k].as_str();
            let ghost pre = es.subrange(0, k as int);
            let ghost now = es.subrange(0, k + 1);
            assert(now.drop_last() =~= pre);
            assert(now.last() == e@);
            let ghost old_names = names@;
            match parse_i64(e) {
                Some(id) => {
                    self.userids.insert(id);
                    assert(self.userids@ =~= old(self).userids@ + unpacked_ids(now));
                },
                None => {
                    let n = e.unicode_len();
                    if n > 0 && e.get_char(0) == '@' {
                        names.push(String::from_str(e.substring_char(1, n)));
                        assert(e@.subrange(1, n as int) =~= e@.skip(1));
                    } else {
                        names.push(String::from_str(e));
                    }
                    assert(string_views(names@) =~= string_views(old_names).push(strip_at(e@)));
                },
            }
            k = k + 1;
        }
        assert(es.subrange(0, k as int) =~= es);
        self.usernames = names;
    }

    /// Whether the list names the user.
    pub fn contains_user(&self, user: Option<&User>) -> (r: bool)
        ensures
            r == self.has_user(
                match user {
                    Some(u) => Some(*u),
                    None => None,
                },
            ),
    {
        match user {
            None => false,
            Some(u) => {
                if self.userids.contains(&u.id) {
                    return true;
                }
                match u.username.as_ref() {
                    None => false,
                    Some(name) => {
                        let mut k: usize = 0;
                        while k < self.usernames.len()
                            invariant
                                k <= self.usernames@.len(),
                                u.username == Some(*name),
                                user == Some(u),
                                forall|q: int| 0 <= q < k ==> self.names()[q] != name@,
                            decreases self.usernames@.len() - k,
                        {
                            if name.eq(&self.usernames[k]) {
                                assert(self.names()[k as int] == name@);
                                assert(self.names().contains(name@));
                                assert(self.users().contains(name@));
                                return true;
                            }
                            k = k + 1;
                        }
                        false
                    },
                }
            },
        }
    }

    /// Whether the list names nobody.
    pub fn is_empty(&self) -> (r: bool)
        ensures
            r == (self.chats().is_empty() && self.ids().is_empty() && self.users().is_empty()),
    {
        if self.usernames.len() > 0 {
            assert(self.users().contains(self.names()[0]));
        } else {
            assert(self.users() =~= Set::<Seq<char>>::empty());
        }
        self.chatids.is_empty() && self.userids.is_empty() && self.usernames.len() == 0
    }
}

/// The whole configuration.
pub struct Config {
    pub general: ConfigGeneral,
    pub allow: ConfigAccess,
    pub deny: ConfigAccess,
}

impl Config {
    /// The rule for a message: a listed user decides first (allowed before
    /// denied), then a listed chat; where neither is listed, everyone may
    /// write unless an allow list exists.
    pub open spec fn allows(&self, msg: Message) -> bool {
        if self.allow.has_user(msg.from) {
            true
        } else if self.deny.has_user(msg.from) {
            false
        } else if self.allow.chats().contains(msg.chat.id) {
            true
        } else if self.deny.chats().contains(msg.chat.id) {
            false
        } else {
            self.allow.chats().is_empty() && self.allow.ids().is_empty()
                && self.allow.users().is_empty()
        }
    }

    /// A configuration as read: both access lists are unpacked, and an empty
    /// list of default cafeterias takes the built-in one.
    pub fn from_parts(general: ConfigGeneral, allow: ConfigAccess, deny: ConfigAccess) -> (r: Config)
        ensures
            r.general.token == general.token,
            r.general.tomorrow == general.tomorrow,
            r.general.retries == general.retries,
            r.general.retrywait == general.retrywait,
            r.general.patterns == general.patterns,
            general.mensas@.len() > 0 ==> r.general.mensas == general.mensas,
            general.mensas@.len() == 0 ==> r.general.mensas@.len() == 2 && r.general.mensas@[0]@
                == "Alte Mensa"@ && r.general.mensas@[1]@ == "Zeltschlösschen"@,
            r.allow.chats() == allow.chats(),
            r.allow.ids() == allow.ids() + unpacked_ids(allow.names()),
            r.allow.names() == unpacked_names(allow.names()),
            r.deny.chats() == deny.chats(),
            r.deny.ids() == deny.ids() + unpacked_ids(deny.names()),
            r.deny.names() == unpacked_names(deny.names()),
    {
        let mut conf = Config { general, allow, deny };
        conf.allow.unpack();
        conf.deny.unpack();
        if conf.general.mensas.len() == 0 {
            conf.general.mensas = ConfigGeneral::default_mensas();
        }
        conf
    }

    /// Whether the bot answers the message.
    pub fn is_allowed(&self, msg: &Message) -> (r: bool)
        ensures
            r == self.allows(*msg),
    {
        if self.allow.contains_user(msg.from.as_ref()) {
            true
        } else if self.deny.contains_user(msg.from.as_ref()) {
            false
        } else if self.allow.chatids.contains(&msg.chat.id) {
            true
        } else if self.deny.chatids.contains(&msg.chat.id) {
            false
        } else if self.allow.is_empty() {
            true
        } else {
            false
        }
    }
}

} // verus!
