//! The key/value store, with subscribers notified of each update.
use vstd::prelude::*;
use vstd::string::StringExecFns;
use std::sync::mpsc::Sender;
use crate::parser::{Val, Value, encoding};

verus! {

#[verifier::external_type_specification]
#[verifier::external_body]
#[verifier::reject_recursive_types(T)]
pub struct ExSender<T>(Sender<T>);

/// Gives `Sender::clone` a specification: the clone feeds the same queue,
/// which nothing here states.
pub assume_specification<T>[ <Sender<T> as Clone>::clone ](s: &Sender<T>) -> Sender<T>;

/// A handle on a queue of outgoing frames. Its model is the sequence of
/// messages handed to the queue through this handle, oldest first.
pub struct Outbox {
    sender: Sender<Vec<u8>>,
    handed: Ghost<Seq<Seq<char>>>,
}

impl View for Outbox {
    type V = Seq<Seq<char>>;

    closed spec fn view(&self) -> Seq<Seq<char>> {
        self.handed@
    }
}

impl Outbox {
    /// A handle on the queue that `sender` feeds.
    pub fn new(sender: Sender<Vec<u8>>) -> (o: Outbox)
        ensures
            o@ == Seq::<Seq<char>>::empty(),
    {
        Outbox { sender, handed: Ghost(Seq::empty()) }
    }

    /// Another handle on the same queue, with nothing handed through it yet.
    pub fn share(&self) -> (o: Outbox)
        ensures
            o@ == Seq::<Seq<char>>::empty(),
    {
        Outbox { sender: self.sender.clone(), handed: Ghost(Seq::empty()) }
    }
}

/// Relies on `Sender::send`: the UTF-8 bytes of `message` are handed to the
/// queue. Whether the queue takes them depends on whether its receiving end
/// is still there, so nothing is promised of the result.
#[verifier::external_body]
pub(crate) fn deliver(to: &mut Outbox, message: &String) -> (sent: bool)
    ensures
        final(to)@ == old(to)@.push(message@),
{
    to.sender.send(message.as_bytes().to_vec()).is_ok()
}

pub open spec fn logs(s: Seq<Outbox>) -> Seq<Seq<Seq<char>>> {
    s.map_values(|o: Outbox| o@)
}

/// The subscribers' logs after the first `j` of them were handed `m`.
pub open spec fn handed_to(subs: Seq<Seq<Seq<char>>>, m: Seq<char>, j: int) -> Seq<Seq<Seq<char>>> {
    Seq::new(subs.len(), |i: int| if i < j { subs[i].push(m) } else { subs[i] })
}

/// What the store keeps under one key: the value, and for each subscriber
/// in the order they came, what was handed to its queue.
pub struct Record {
    pub value: Val,
    pub subscribers: Seq<Seq<Seq<char>>>,
}

/// A stored value, an expiration mark that nothing acts on yet, and the
/// queues of the subscribers of its key.
pub struct Entry {
    value: Value,
    expiration: Option<usize>,
    subscribers: Option<Vec<Outbox>>,
}

impl Entry {
    pub closed spec fn record(&self) -> Record {
        Record {
            value: self.value@,
            subscribers: match self.subscribers {
                Some(s) => logs(s@),
                None => Seq::empty(),
            },
        }
    }

    /// A subscriber list, where there is one, is not empty.
    pub closed spec fn wf(&self) -> bool {
        match self.subscribers {
            Some(s) => s@.len() > 0,
            None => true,
        }
    }
}

/// Hands `message` to each subscriber in turn, and stops after the first
/// one whose queue did not take it.
fn deliver_all(subscribers: &mut Vec<Outbox>, message: &String) -> (all: bool)
    ensures
        final(subscribers)@.len() == old(subscribers)@.len(),
        all ==> logs(final(subscribers)@) == handed_to(
            logs(old(subscribers)@),
            message@,
            old(subscribers)@.len() as int,
        ),
        !all ==> exists|j: int|
            1 <= j <= old(subscribers)@.len() && logs(final(subscribers)@) == #[trigger] handed_to(
                logs(old(subscribers)@),
                message@,
                j,
            ),
{
    let ghost start = logs(subscribers@);
    let mut i: usize = 0;
    while i < subscribers.len()
        invariant
            i <= subscribers@.len(),
            subscribers@.len() == start.len(),
            start == logs(old(subscribers)@),
            logs(subscribers@) == handed_to(start, message@, i as int),
        decreases subscribers@.len() - i,
    {
        let ghost prev = subscribers@;
        let sent = deliver(&mut subscribers[i], message);
        assert(subscribers@[i as int]@ == prev[i as int]@.push(message@));
        assert(forall|j: int| 0 <= j < prev.len() && j != i ==> subscribers@[j] == prev[j]);
        assert forall|j: int| 0 <= j < prev.len() implies #[trigger] logs(subscribers@)[j]
            == handed_to(start, message@, i + 1)[j] by {
            assert(logs(prev)[j] == handed_to(start, message@, i as int)[j]);
        }
        assert(logs(subscribers@) =~= handed_to(start, message@, i + 1));
        if !sent {
            return false;
        }
        i = i + 1;
    }
    true
}

/// The map that a sequence of entries stands for.
pub open spec fn to_map(d: Seq<(String, Entry)>) -> Map<Seq<char>, Record>
    decreases d.len(),
{
    if d.len() == 0 {
        Map::empty()
    } else {
        to_map(d.drop_last()).insert(d.last().0@, d.last().1.record())
    }
}

pub open spec fn keys_unique(d: Seq<(String, Entry)>) -> bool {
    forall|i: int, j: int| 0 <= i < j < d.len() ==> d[i].0@ != d[j].0@
}

pub proof fn lemma_map_domain(d: Seq<(String, Entry)>, k: Seq<char>)
    ensures
        to_map(d).contains_key(k) <==> exists|i: int| 0 <= i < d.len() && d[i].0@ == k,
    decreases d.len(),
{
    if d.len() > 0 {
        lemma_map_domain(d.drop_last(), k);
        if to_map(d.drop_last()).contains_key(k) {
            let i = choose|i: int| 0 <= i < d.len() - 1 && d.drop_last()[i].0@ == k;
            assert(d[i].0@ == k);
        }
        if exists|i: int| 0 <= i < d.len() && d[i].0@ == k {
            let i = choose|i: int| 0 <= i < d.len() && d[i].0@ == k;
            if i < d.len() - 1 {
                assert(d.drop_last()[i].0@ == k);
            }
        }
    }
}

pub proof fn lemma_map_at(d: Seq<(String, Entry)>, i: int)
    requires
        keys_unique(d),
        0 <= i < d.len(),
    ensures
        to_map(d).contains_key(d[i].0@),
        to_map(d)[d[i].0@] == d[i].1.record(),
    decreases d.len(),
{
    if i < d.len() - 1 {
        lemma_map_at(d.drop_last(), i);
    }
}

pub proof fn lemma_map_remove(d: Seq<(String, Entry)>, i: int)
    requires
        keys_unique(d),
        0 <= i < d.len(),
    ensures
        to_map(d.remove(i)) == to_map(d).remove(d[i].0@),
        keys_unique(d.remove(i)),
    decreases d.len(),
{
    let last = d.last();
    let front = d.drop_last();
    if i == d.len() - 1 {
        assert(d.remove(i) =~= front);
        lemma_map_domain(front, last.0@);
        assert(to_map(front) =~= to_map(d).remove(last.0@));
    } else {
        lemma_map_remove(front, i);
        assert(d.remove(i) =~= front.remove(i).push(last));
        assert(d.remove(i).drop_last() =~= front.remove(i));
        assert(to_map(d.remove(i)) =~= to_map(d).remove(d[i].0@));
    }
}

/// A subscriber of the key could not be reached, so the update was not made.
#[derive(Debug)]
pub struct DeliveryError;

/// What a subscriber list stands for: the logs of its queues, or none.
pub open spec fn logs_of(s: &Option<Vec<Outbox>>) -> Seq<Seq<Seq<char>>> {
    match s {
        Some(v) => logs(v@),
        None => Seq::empty(),
    }
}

/// The store: each key at most once, with its entry. The entries are kept
/// in a `Vec` because vstd models `HashMap` keys of primitive types only,
/// not `String`.
pub struct Database {
    data: Vec<(String, Entry)>,
}

impl View for Database {
    type V = Map<Seq<char>, Record>;

    closed spec fn view(&self) -> Map<Seq<char>, Record> {
        to_map(self.data@)
    }
}

/// The message that tells a subscriber of `key` that it now holds `value`.
pub open spec fn notice(key: Seq<char>, value: Val) -> Seq<char> {
    "update "@ + key + "->"@ + encoding(value) + "\r\n\r\n"@
}

/// Writes the message that tells a subscriber of `key` that it now holds `value`.
pub fn notification(key: &str, value: &Value) -> (m: String)
    ensures
        m@ == notice(key@, value@),
{
    let mut m = String::new();
    m.append("update ");
    m.append(key);
    m.append("->");
    m.append(value.encode().as_str());
    m.append("\r\n\r\n");
    assert(m@ =~= notice(key@, value@));
    m
}

/// The store after an update of `key` to `value` that reached the first `j`
/// subscribers and then stopped: the value is kept.
pub open spec fn partly_notified(m: Map<Seq<char>, Record>, key: Seq<char>, value: Val, j: int) -> Map<
    Seq<char>,
    Record,
> {
    m.insert(
        key,
        Record {
            value: m[key].value,
            subscribers: handed_to(m[key].subscribers, notice(key, value), j),
        },
    )
}

/// The store after an update of `key` to `value` that every subscriber was
/// handed.
pub open spec fn updated(m: Map<Seq<char>, Record>, key: Seq<char>, value: Val) -> Map<Seq<char>, Record> {
    m.insert(
        key,
        Record {
            value: value,
            subscribers: handed_to(m[key].subscribers, notice(key, value), m[key].subscribers.len() as int),
        },
    )
}

impl Database {
    /// Keys are unique and every subscriber list is non-empty.
    pub closed spec fn wf(&self) -> bool {
        &&& keys_unique(self.data@)
        &&& forall|i: int| 0 <= i < self.data@.len() ==> (#[trigger] self.data@[i]).1.wf()
    }

    pub fn new() -> (r: Self)
        ensures
            r.wf(),
            r@ == Map::<Seq<char>, Record>::empty(),
    {
        Database { data: Vec::new() }
    }

    /// Where `key` is stored.
    fn position(&self, key: &str) -> (r: Option<usize>)
        requires
            self.wf(),
        ensures
            match r {
                Some(i) => i < self.data@.len() && self.data@[i as int].0@ == key@
                    && self@.contains_key(key@),
                None => !self@.contains_key(key@),
            },
    {
        let wanted = key.to_owned();
        let mut i: usize = 0;
        while i < self.data.len()
            invariant
                self.wf(),
                wanted@ == key@,
                i <= self.data@.len(),
                forall|j: int| 0 <= j < i ==> self.data@[j].0@ != key@,
            decreases self.data@.len() - i,
        {
            if self.data[i].0 == wanted {
                proof {
                    lemma_map_at(self.data@, i as int);
                }
                return Some(i);
            }
            i = i + 1;
        }
        proof {
            lemma_map_domain(self.data@, key@);
        }
        None
    }

    /// Takes out the entry at `i`.
    fn take(&mut self, i: usize) -> (r: (String, Entry))
        requires
            old(self).wf(),
            i < old(self).data@.len(),
        ensures
            final(self).wf(),
            r == old(self).data@[i as int],
            r.1.wf(),
            old(self)@.contains_key(r.0@),
            old(self)@[r.0@] == r.1.record(),
            final(self)@ == old(self)@.remove(r.0@),
    {
        proof {
            lemma_map_at(self.data@, i as int);
            lemma_map_remove(self.data@, i as int);
        }
        let r = self.data.remove(i);
        assert forall|j: int| 0 <= j < self.data@.len() implies (#[trigger] self.data@[j]).1.wf() by {
            if j < i {
                assert(self.data@[j] == old(self).data@[j]);
            } else {
                assert(self.data@[j] == old(self).data@[j + 1]);
            }
        }
        r
    }

    /// Stores an entry under a key that is not yet present.
    fn put(&mut self, key: String, e: Entry)
        requires
            old(self).wf(),
            e.wf(),
            !old(self)@.contains_key(key@),
        ensures
            final(self).wf(),
            final(self)@ == old(self)@.insert(key@, e.record()),
    {
        proof {
            lemma_map_domain(self.data@, key@);
        }
        let ghost k = key@;
        let ghost rec = e.record();
        self.data.push((key, e));
        assert(self.data@.drop_last() =~= old(self).data@);
        assert(keys_unique(self.data@)) by {
            assert forall|i: int, j: int| 0 <= i < j < self.data@.len() implies self.data@[i].0@
                != self.data@[j].0@ by {
                if j == self.data@.len() - 1 {
                    assert(old(self).data@[i].0@ != k);
                } else {
                    assert(self.data@[i] == old(self).data@[i]);
                    assert(self.data@[j] == old(self).data@[j]);
                }
            }
        }
        assert forall|j: int| 0 <= j < self.data@.len() implies (#[trigger] self.data@[j]).1.wf() by {
            if j < self.data@.len() - 1 {
                assert(self.data@[j] == old(self).data@[j]);
            }
        }
    }

    /// Stores `value` under `key` with no subscribers, and returns the
    /// value that was there before. Existing subscribers are dropped and
    /// nothing is sent.
    pub fn create(&mut self, key: String, value: Value) -> (r: Option<Value>)
        requires
            old(self).wf(),
        ensures
            final(self).wf(),
            final(self)@ == old(self)@.insert(key@, Record { value: value@, subscribers: Seq::empty() }),
            match r {
                Some(v) => old(self)@.contains_key(key@) && v@ == old(self)@[key@].value,
                None => !old(self)@.contains_key(key@),
            },
    {
        let prior = match self.position(key.as_str()) {
            Some(i) => {
                let (_, e) = self.take(i);
                Some(e.value)
            },
            None => None,
        };
        let e = Entry { value, expiration: None, subscribers: None };
        self.put(key, e);
        assert(self@ =~= old(self)@.insert(key@, Record { value: value@, subscribers: Seq::empty() }));
        prior
    }

    /// The value stored under `key`.
    pub fn read(&self, key: &str) -> (r: Option<&Value>)
        requires
            self.wf(),
        ensures
            match r {
                Some(v) => self@.contains_key(key@) && v@ == self@[key@].value,
                None => !self@.contains_key(key@),
            },
    {
        match self.position(key) {
            Some(i) => {
                proof {
                    lemma_map_at(self.data@, i as int);
                }
                Some(&self.data[i].1.value)
            },
            None => None,
        }
    }

    /// Replaces the value under `key`, where there is one. Every subscriber
    /// of the key is first handed the notification of the new value, in
    /// order; if one queue does not take it, the rest are skipped and the
    /// value is kept.
    pub fn update(&mut self, key: &str, value: Value) -> (r: Result<Option<Value>, DeliveryError>)
        requires
            old(self).wf(),
        ensures
            final(self).wf(),
            !old(self)@.contains_key(key@) ==> (r matches Ok(None)) && final(self)@ == old(self)@,
            old(self)@.contains_key(key@) ==> match r {
                Ok(Some(prior)) => prior@ == old(self)@[key@].value && final(self)@ == updated(
                    old(self)@,
                    key@,
                    value@,
                ),
                Ok(None) => false,
                Err(_) => exists|j: int|
                    1 <= j <= old(self)@[key@].subscribers.len() && final(self)@ == #[trigger] partly_notified(
                        old(self)@,
                        key@,
                        value@,
                        j,
                    ),
            },
    {
        match self.position(key) {
            None => Ok(None),
            Some(i) => {
                let (k, e) = self.take(i);
                let message = notification(key, &value);
                let Entry { value: prior, expiration, subscribers } = e;
                let ghost before = logs_of(&subscribers);
                let (reached, subscribers) = match subscribers {
                    Some(mut list) => {
                        let all = deliver_all(&mut list, &message);
                        (all, Some(list))
                    },
                    None => (true, None),
                };
                if !reached {
                    let ghost j = choose|j: int|
                        1 <= j <= before.len() && logs_of(&subscribers) == #[trigger] handed_to(
                            before,
                            message@,
                            j,
                        );
                    self.put(k, Entry { value: prior, expiration, subscribers });
                    assert(self@ =~= partly_notified(old(self)@, key@, value@, j));
                    return Err(DeliveryError);
                }
                self.put(k, Entry { value, expiration, subscribers });
                assert(handed_to(before, message@, before.len() as int) =~= logs_of(&subscribers)) by {
                    if before.len() == 0 {
                        assert(logs_of(&subscribers) =~= Seq::<Seq<Seq<char>>>::empty());
                    }
                }
                assert(self@ =~= updated(old(self)@, key@, value@));
                Ok(Some(prior))
            },
        }
    }

    /// Removes `key` and returns the value it held. Nothing is sent.
    pub fn delete(&mut self, key: &str) -> (r: Option<Value>)
        requires
            old(self).wf(),
        ensures
            final(self).wf(),
            final(self)@ == old(self)@.remove(key@),
            match r {
                Some(v) => old(self)@.contains_key(key@) && v@ == old(self)@[key@].value,
                None => !old(self)@.contains_key(key@),
            },
    {
        match self.position(key) {
            Some(i) => {
                let (_, e) = self.take(i);
                Some(e.value)
            },
            None => {
                assert(self@ =~= old(self)@.remove(key@));
                None
            },
        }
    }

    /// Registers `sender` as the last subscriber of `key`, where the key is
    /// present, after handing it the notification of the current value.
    /// Returns how many subscribers the key has now, or 0 where the key is
    /// absent and nothing was sent or registered.
    pub fn subscribe(&mut self, key: &str, sender: Outbox) -> (r: usize)
        requires
            old(self).wf(),
        ensures
            final(self).wf(),
            !old(self)@.contains_key(key@) ==> r == 0 && final(self)@ == old(self)@,
            old(self)@.contains_key(key@) ==> r == old(self)@[key@].subscribers.len() + 1
                && final(self)@ == old(self)@.insert(
                key@,
                Record {
                    value: old(self)@[key@].value,
                    subscribers: old(self)@[key@].subscribers.push(
                        sender@.push(notice(key@, old(self)@[key@].value)),
                    ),
                },
            ),
    {
        match self.position(key) {
            None => 0,
            Some(i) => {
                let (k, e) = self.take(i);
                let message = notification(key, &e.value);
                let mut handle = sender;
                let _ = deliver(&mut handle, &message);
                let Entry { value, expiration, subscribers } = e;
                let ghost earlier = logs_of(&subscribers);
                let list = match subscribers {
                    Some(mut list) => {
                        list.push(handle);
                        list
                    },
                    None => vec![handle],
                };
                let n = list.len();
                assert(logs(list@) =~= earlier.push(handle@));
                self.put(k, Entry { value, expiration, subscribers: Some(list) });
                assert(self@ =~= old(self)@.insert(
                    key@,
                    Record {
                        value: old(self)@[key@].value,
                        subscribers: old(self)@[key@].subscribers.push(
                            sender@.push(notice(key@, old(self)@[key@].value)),
                        ),
                    },
                ));
                n
            },
        }
    }
}

} // verus!
