//! Per-chat notification settings: the free-form comment and the
//! subscribers to mention.

use vstd::prelude::*;

use crate::error::Error;
use crate::push_char;

verus! {

/// Settings of one tracked branch.
#[derive(Clone, Debug, Default)]
pub struct BranchSettings {
    pub notify: NotifySettings,
}

/// Who to tell, and with what comment.
#[derive(Clone, Debug, Default)]
pub struct NotifySettings {
    pub comment: String,
    pub subscribers: Vec<Subscriber>,
}

/// One subscriber to mention.
#[derive(Clone, Debug, PartialEq, Eq)]
pub enum Subscriber {
    Telegram { markdown_mention: String },
}

impl Subscriber {
    /// The mention of this subscriber.
    pub open spec fn mention(self) -> Seq<char> {
        match self {
            Subscriber::Telegram { markdown_mention } => markdown_mention@,
        }
    }

    /// The markdown mention of this subscriber.
    pub fn markdown(&self) -> (r: &str)
        ensures
            r@ == self.mention(),
    {
        match self {
            Subscriber::Telegram { markdown_mention } => markdown_mention.as_str(),
        }
    }
}

/// The mentions of `subs` joined with single spaces.
pub open spec fn mentions_joined(subs: Seq<Subscriber>) -> Seq<char>
    decreases subs.len(),
{
    if subs.len() == 0 {
        Seq::empty()
    } else if subs.len() == 1 {
        subs[0].mention()
    } else {
        mentions_joined(subs.drop_last()) + seq![' '] + subs.last().mention()
    }
}

/// What `subscribers_markdown` returns: nothing for no subscribers, else a
/// `*subscribers*: ` header followed by the joined mentions.
pub open spec fn subscribers_markdown_spec(subs: Seq<Subscriber>) -> Seq<char> {
    if subs.len() == 0 {
        Seq::empty()
    } else {
        "*subscribers*: "@ + mentions_joined(subs)
    }
}

impl NotifySettings {
    /// The markdown line that mentions all subscribers, empty when there
    /// are none.
    pub fn subscribers_markdown(&self) -> (r: String)
        ensures
            r@ == subscribers_markdown_spec(self.subscribers@),
    {
        let mut result = String::new();
        if self.subscribers.len() == 0 {
            return result;
        }
        result.append("*subscribers*: ");
        let mut i: usize = 0;
        while i < self.subscribers.len()
            invariant
                1 <= self.subscribers.len(),
                0 <= i <= self.subscribers.len(),
                result@ == "*subscribers*: "@ + mentions_joined(
                    self.subscribers@.subrange(0, i as int),
                ),
            decreases self.subscribers.len() - i,
        {
            proof {
                assert(self.subscribers@.subrange(0, i + 1 as int).drop_last()
                    =~= self.subscribers@.subrange(0, i as int));
                assert(self.subscribers@.subrange(0, i + 1 as int).last()
                    == self.subscribers@[i as int]);
            }
            if i > 0 {
                push_char(&mut result, ' ');
            }
            result.append(self.subscribers[i].markdown());
            proof {
                if i == 0 {
                    assert(self.subscribers@.subrange(0, 1).len() == 1);
                    assert(mentions_joined(self.subscribers@.subrange(0, 1))
                        == self.subscribers@[0].mention());
                    assert(result@ =~= "*subscribers*: "@ + mentions_joined(
                        self.subscribers@.subrange(0, 1),
                    ));
                } else {
                    assert(self.subscribers@.subrange(0, i + 1 as int).len() > 1);
                    assert(result@ =~= "*subscribers*: "@ + mentions_joined(
                        self.subscribers@.subrange(0, i + 1 as int),
                    ));
                }
            }
            i = i + 1;
        }
        proof {
            assert(self.subscribers@.subrange(0, self.subscribers.len() as int)
                =~= self.subscribers@);
        }
        result
    }
}

/// The wire shape a subscriber may arrive in: an explicit mention, or only
/// a user name kept for compatibility.
#[derive(Clone, Debug, PartialEq, Eq)]
pub enum SubscriberCompat {
    Telegram { markdown_mention: Option<String>, username: Option<String> },
}

impl Subscriber {
    /// Interprets the compatibility shape: an explicit mention wins, a bare
    /// user name becomes an `@` mention, anything else is rejected.
    pub fn from_compat(compat: SubscriberCompat) -> (r: Result<Subscriber, Error>)
        ensures
            match compat {
                SubscriberCompat::Telegram { markdown_mention: Some(m), username: _ } => r
                    matches Ok(s) && s.mention() == m@,
                SubscriberCompat::Telegram { markdown_mention: None, username: Some(u) } => r
                    matches Ok(s) && s.mention() == seq!['@'] + u@,
                SubscriberCompat::Telegram { markdown_mention: None, username: None } => r
                    is Err,
            },
    {
        match compat {
            SubscriberCompat::Telegram { markdown_mention: Some(m), username: _ } => Ok(
                Subscriber::Telegram { markdown_mention: m },
            ),
            SubscriberCompat::Telegram { markdown_mention: None, username: Some(u) } => {
                let mut mention = String::new();
                push_char(&mut mention, '@');
                mention.append(u.as_str());
                proof {
                    assert(mention@ =~= seq!['@'] + u@);
                }
                Ok(Subscriber::Telegram { markdown_mention: mention })
            },
            SubscriberCompat::Telegram { markdown_mention: None, username: None } => Err(
                Error::InvalidSubscriber(
                    SubscriberCompat::Telegram { markdown_mention: None, username: None },
                ),
            ),
        }
    }
}


/// Whether some subscriber of `subs` carries the mention `m`.
pub open spec fn has_mention(subs: Seq<Subscriber>, m: Seq<char>) -> bool {
    exists|i: int| 0 <= i < subs.len() && (#[trigger] subs[i]).mention() == m
}

/// No two subscribers carry the same mention.
pub open spec fn subscribers_unique(subs: Seq<Subscriber>) -> bool {
    forall|i: int, j: int| 0 <= i < j < subs.len() ==> subs[i].mention() != subs[j].mention()
}

/// The position of the first subscriber carrying this mention, if any.
fn find_mention(set: &Vec<Subscriber>, subscriber: &Subscriber) -> (r: Option<usize>)
    ensures
        match r {
            Some(i) => {
                &&& i < set.len()
                &&& set@[i as int].mention() == subscriber.mention()
                &&& forall|k: int|
                    0 <= k < i ==> (#[trigger] set@[k]).mention() != subscriber.mention()
            },
            None => !has_mention(set@, subscriber.mention()),
        },
{
    let mut i: usize = 0;
    while i < set.len()
        invariant
            0 <= i <= set.len(),
            forall|k: int| 0 <= k < i ==> (#[trigger] set@[k]).mention() != subscriber.mention(),
        decreases set.len() - i,
    {
        let a: String = set[i].markdown().to_owned();
        let b: String = subscriber.markdown().to_owned();
        if a == b {
            return Some(i);
        }
        i = i + 1;
    }
    None
}

/// Adds or removes a subscriber, by its mention: subscribing an existing
/// subscriber and unsubscribing a missing one are errors; otherwise the
/// subscriber is appended, or its first occurrence removed. Distinct
/// mentions stay distinct.
pub fn modify_subscriber_set(
    set: &mut Vec<Subscriber>,
    subscriber: Subscriber,
    unsubscribe: bool,
) -> (r: Result<(), Error>)
    ensures
        unsubscribe && !has_mention(old(set)@, subscriber.mention()) ==> (r matches Err(e) && e
            matches Error::NotSubscribed) && final(set)@ == old(set)@,
        unsubscribe && has_mention(old(set)@, subscriber.mention()) ==> r is Ok && (exists|i: int|
            {
                &&& 0 <= i < old(set)@.len()
                &&& (#[trigger] old(set)@[i]).mention() == subscriber.mention()
                &&& (forall|k: int|
                    0 <= k < i ==> (#[trigger] old(set)@[k]).mention() != subscriber.mention())
                &&& final(set)@ == old(set)@.remove(i)
            }),
        !unsubscribe && has_mention(old(set)@, subscriber.mention()) ==> (r matches Err(e) && e
            matches Error::AlreadySubscribed) && final(set)@ == old(set)@,
        !unsubscribe && !has_mention(old(set)@, subscriber.mention()) ==> r is Ok && final(set)@
            == old(set)@.push(subscriber),
        subscribers_unique(old(set)@) ==> subscribers_unique(final(set)@),
{
    let ghost pre = set@;
    let found = find_mention(set, &subscriber);
    match found {
        Some(i) => {
            if unsubscribe {
                set.remove(i);
                proof {
                    assert(pre[i as int].mention() == subscriber.mention());
                    if subscribers_unique(pre) {
                        assert forall|p: int, q: int|
                            0 <= p < q < set@.len() implies set@[p].mention()
                            != set@[q].mention() by {
                            let p0: int = if p < i { p } else { p + 1 };
                            let q0: int = if q < i { q } else { q + 1 };
                            assert(set@[p] == pre[p0]);
                            assert(set@[q] == pre[q0]);
                        }
                    }
                }
                Ok(())
            } else {
                proof {
                    assert(has_mention(pre, subscriber.mention()));
                }
                Err(Error::AlreadySubscribed)
            }
        },
        None => {
            if unsubscribe {
                Err(Error::NotSubscribed)
            } else {
                set.push(subscriber);
                proof {
                    if subscribers_unique(pre) {
                        assert forall|p: int, q: int|
                            0 <= p < q < set@.len() implies set@[p].mention()
                            != set@[q].mention() by {
                            if q == pre.len() {
                                assert(set@[p] == pre[p]);
                                assert(pre[p].mention() != subscriber.mention());
                            } else {
                                assert(set@[p] == pre[p]);
                                assert(set@[q] == pre[q]);
                            }
                        }
                    }
                }
                Ok(())
            }
        },
    }
}

} // verus!
