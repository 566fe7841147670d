use vstd::prelude::*;
use vstd::utf8::encode_utf8;
use crate::history::History;
use crate::directory::{Directory, name_in};

verus! {

/// What an envelope carries.
#[derive(PartialEq, Eq, Structural, Clone, Copy, Debug)]
pub enum MessageType {
    /// A line of chat text, to be shown to its recipients.
    Message,
    /// A serialized replica state, to be merged by its recipient.
    State,
}

/// A message or event produced by a participant.
#[derive(Debug)]
pub struct Message {
    /// What the payload holds.
    pub message_type: MessageType,
    /// The payload.
    pub data: Vec<u8>,
    /// The intended recipient, or `None` for every subscriber.
    pub addressee: Option<String>,
    /// The peer that produced the message.
    pub source: String,
}

/// The views of an optional string.
pub open spec fn opt_view(o: Option<String>) -> Option<Seq<char>> {
    match o {
        Some(s) => Some(s@),
        None => None,
    }
}

impl Message {
    /// A chat line from `sender` to every subscriber, carrying the UTF-8
    /// bytes of `text`.
    pub fn create(sender: String, text: String) -> (r: Message)
        ensures
            r.message_type == MessageType::Message,
            r.data@ == encode_utf8(text@),
            r.addressee.is_none(),
            r.source@ == sender@,
    {
        let data = vstd::slice::slice_to_vec(text.as_str().as_bytes());
        Message { message_type: MessageType::Message, data, addressee: None, source: sender }
    }
}

/// Something the local participant is to be shown.
#[derive(Debug)]
pub enum Notice {
    /// A peer with this name joined the chat.
    Joined { name: String },
    /// The peer shown under `name` said `text`.
    Said { name: String, text: Vec<u8> },
    /// A peer with this name left the chat.
    Left { name: String },
}

/// The mathematical content of a notice.
pub enum NoticeView {
    Joined(Seq<char>),
    Said(Seq<char>, Seq<u8>),
    Left(Seq<char>),
}

impl View for Notice {
    type V = NoticeView;

    open spec fn view(&self) -> NoticeView {
        match self {
            Notice::Joined { name } => NoticeView::Joined(name@),
            Notice::Said { name, text } => NoticeView::Said(name@, text@),
            Notice::Left { name } => NoticeView::Left(name@),
        }
    }
}

/// The views of a sequence of notices.
pub open spec fn notice_views(s: Seq<Notice>) -> Seq<NoticeView> {
    s.map_values(|n: Notice| n@)
}

/// Whether a merge takes the foreign log: only a replica without history
/// takes one, and only one that holds more than a single message.
pub open spec fn accepts_log(own_count: nat, foreign_count: nat) -> bool {
    own_count < 1 && foreign_count > 1
}

/// The "joined" notices for the entries of `fresh` whose peers `known`
/// lacks, in the order of `fresh`.
pub open spec fn joined_notices(
    known: Map<Seq<char>, Seq<char>>,
    fresh: Seq<(Seq<char>, Seq<char>)>,
) -> Seq<NoticeView>
    decreases fresh.len(),
{
    if fresh.len() == 0 {
        Seq::empty()
    } else {
        let prev = joined_notices(known, fresh.drop_last());
        if known.contains_key(fresh.last().0) {
            prev
        } else {
            prev.push(NoticeView::Joined(fresh.last().1))
        }
    }
}

/// Each message of `msgs`, in order, as shown under the names of `names`.
pub open spec fn replay_notices(names: Map<Seq<char>, Seq<char>>, msgs: Seq<Message>) -> Seq<
    NoticeView,
> {
    msgs.map_values(|m: Message| NoticeView::Said(name_in(names, m.source@), m.data@))
}

/// The replicated state of the chat: its history and the usernames of the
/// peers seen.
pub struct State {
    /// The chat history.
    pub history: History<Message>,
    /// The display name of each known peer.
    pub usernames: Directory,
}

impl State {
    /// The usernames are well formed.
    pub open spec fn wf(&self) -> bool {
        self.usernames.wf()
    }

    /// A state with no history and no usernames.
    pub fn new() -> (r: State)
        ensures
            r.wf(),
            r.history@ == Seq::<Message>::empty(),
            r.usernames@ == Map::<Seq<char>, Seq<char>>::empty(),
    {
        State { history: History::new(), usernames: Directory::new() }
    }

    /// Folds `other` into this state. Every peer of `other` that this state
    /// does not know is added with its name, and announced; a known peer
    /// keeps its name. The log of `other` is taken, and each of its
    /// messages shown in order, only when `accepts_log` holds of the two
    /// counts; otherwise the log is left as it was.
    pub fn merge(&mut self, other: State) -> (notices: Vec<Notice>)
        requires
            old(self).wf(),
            other.wf(),
        ensures
            final(self).wf(),
            final(self).usernames@ == other.usernames@.union_prefer_right(old(self).usernames@),
            accepts_log(old(self).history@.len(), other.history@.len()) ==> final(self).history@
                == old(self).history@ + other.history@,
            !accepts_log(old(self).history@.len(), other.history@.len()) ==> final(self).history@
                == old(self).history@,
            notice_views(notices@) == joined_notices(old(self).usernames@, other.usernames.pairs())
                + if accepts_log(old(self).history@.len(), other.history@.len()) {
                replay_notices(final(self).usernames@, other.history@)
            } else {
                Seq::empty()
            },
    {
        let ghost old_names = self.usernames@;
        let ghost p = other.usernames.pairs();
        let ghost start_log = self.history@;
        proof {
            other.usernames.lemma_pairs();
        }
        let mut notices: Vec<Notice> = Vec::new();
        let entries = other.usernames.entries();
        let mut i: usize = 0;
        while i < entries.len()
            invariant
                self.wf(),
                other.wf(),
                self.history@ == start_log,
                entries@.map_values(|e: (String, String)| crate::directory::entry_view(e)) == p,
                p == other.usernames.pairs(),
                0 <= i <= p.len(),
                forall|k: Seq<char>| #[trigger] self.usernames@.contains_key(k) <==>
                    (old_names.contains_key(k) || exists|j: int| 0 <= j < i && p[j].0 == k),
                forall|k: Seq<char>| #[trigger] old_names.contains_key(k) ==>
                    self.usernames@[k] == old_names[k],
                forall|j: int| 0 <= j < i && !old_names.contains_key(#[trigger] p[j].0) ==>
                    self.usernames@[p[j].0] == p[j].1,
                forall|a: int, b: int|
                    0 <= a < p.len() && 0 <= b < p.len() && a != b ==> #[trigger] p[a].0 != #[trigger] p[b].0,
                notice_views(notices@) == joined_notices(old_names, p.subrange(0, i as int)),
            decreases p.len() - i,
        {
            let peer = &entries[i].0;
            let name = &entries[i].1;
            assert(p[i as int] == (peer@, name@));
            proof {
                if self.usernames@.contains_key(peer@) && !old_names.contains_key(peer@) {
                    let j = choose|j: int| 0 <= j < i && p[j].0 == peer@;
                    assert(p[j].0 == p[i as int].0);
                }
            }
            let added = self.usernames.insert_if_absent(peer.clone(), name.clone());
            assert(p.subrange(0, i + 1).drop_last() =~= p.subrange(0, i as int));
            if added {
                let ghost before = notices@;
                notices.push(Notice::Joined { name: name.clone() });
                assert(notice_views(notices@) =~= notice_views(before).push(
                    NoticeView::Joined(name@),
                ));
            }
            proof {
                assert forall|k: Seq<char>| #[trigger] self.usernames@.contains_key(k) <==>
                    (old_names.contains_key(k) || exists|j: int| 0 <= j < i + 1 && p[j].0 == k) by {
                    if k == peer@ {
                        assert(p[i as int].0 == k);
                    }
                }
            }
            i = i + 1;
        }
        assert(p.subrange(0, i as int) =~= p);
        proof {
            let u = other.usernames@.union_prefer_right(old_names);
            assert forall|k: Seq<char>| #[trigger] self.usernames@.contains_key(k) == u.contains_key(k) by {
                if other.usernames@.contains_key(k) {
                    let j = choose|j: int| 0 <= j < p.len() && p[j].0 == k;
                }
            }
            assert forall|k: Seq<char>| #[trigger] u.contains_key(k) implies self.usernames@[k] == u[k] by {
                if !old_names.contains_key(k) {
                    let j = choose|j: int| 0 <= j < p.len() && p[j].0 == k;
                    assert(other.usernames@[p[j].0] == p[j].1);
                }
            }
            assert(self.usernames@ =~= u);
        }
        let ghost joined = notices@;
        let ghost own_log = self.history@;
        let ghost foreign_log = other.history@;
        if self.history.get_count() < 1 && other.history.get_count() > 1 {
            self.history.absorb(other.history);
            assert(self.history@ =~= foreign_log);
            let msgs = self.history.get_all();
            let mut m: usize = 0;
            while m < msgs.len()
                invariant
                    self.wf(),
                    msgs@ == self.history@,
                    own_log.len() == 0,
                    0 <= m <= msgs@.len(),
                    notices@.len() == joined.len() + m,
                    forall|x: int| 0 <= x < joined.len() ==> #[trigger] notices@[x] == joined[x],
                    forall|x: int| 0 <= x < m ==> #[trigger] notices@[joined.len() + x]@
                        == NoticeView::Said(name_in(self.usernames@, msgs@[x].source@), msgs@[x].data@),
                decreases msgs@.len() - m,
            {
                let name = self.get_username(&msgs[m].source);
                let text = vstd::slice::slice_to_vec(msgs[m].data.as_slice());
                notices.push(Notice::Said { name, text });
                m = m + 1;
            }
            assert(self.history@ =~= own_log + foreign_log);
            let ghost expected = notice_views(joined) + replay_notices(self.usernames@, foreign_log);
            assert forall|y: int| 0 <= y < notices@.len() implies notice_views(notices@)[y]
                == expected[y] by {
                if y >= joined.len() {
                    let x = y - joined.len();
                    assert(notices@[joined.len() + x]@ == NoticeView::Said(
                        name_in(self.usernames@, msgs@[x].source@),
                        msgs@[x].data@,
                    ));
                } else {
                    assert(notices@[y] == joined[y]);
                }
            }
            assert(notice_views(notices@) =~= expected);
        }
        notices
    }

    /// The display name of `usr`: its registered name, or `anonimo` for a
    /// peer the directory does not know.
    pub fn get_username(&self, usr: &String) -> (r: String)
        requires
            self.wf(),
        ensures
            r@ == name_in(self.usernames@, usr@),
    {
        match self.usernames.lookup(usr) {
            Some(name) => name,
            None => {
                let r = "anonimo".to_owned();
                proof {
                    reveal_strlit("anonimo");
                }
                assert(r@ =~= crate::directory::default_name());
                r
            },
        }
    }
}


/// The usernames after merging, one after another, replicas whose
/// usernames are `foreign`, into a replica whose usernames are `local`.
pub open spec fn names_after_merges(
    local: Map<Seq<char>, Seq<char>>,
    foreign: Seq<Map<Seq<char>, Seq<char>>>,
) -> Map<Seq<char>, Seq<char>>
    decreases foreign.len(),
{
    if foreign.len() == 0 {
        local
    } else {
        foreign.last().union_prefer_right(names_after_merges(local, foreign.drop_last()))
    }
}

/// Merges never remove a peer: after any sequence of merges, every peer
/// known before is still known.
pub proof fn lemma_merges_keep_peers(
    local: Map<Seq<char>, Seq<char>>,
    foreign: Seq<Map<Seq<char>, Seq<char>>>,
    peer: Seq<char>,
)
    requires
        local.contains_key(peer),
    ensures
        names_after_merges(local, foreign).contains_key(peer),
    decreases foreign.len(),
{
    if foreign.len() > 0 {
        lemma_merges_keep_peers(local, foreign.drop_last(), peer);
    }
}

/// The first name wins: after any sequence of merges, a peer known before
/// keeps the name it had, whatever names the foreign replicas hold for it.
pub proof fn lemma_merges_keep_names(
    local: Map<Seq<char>, Seq<char>>,
    foreign: Seq<Map<Seq<char>, Seq<char>>>,
    peer: Seq<char>,
)
    requires
        local.contains_key(peer),
    ensures
        names_after_merges(local, foreign)[peer] == local[peer],
    decreases foreign.len(),
{
    if foreign.len() > 0 {
        lemma_merges_keep_peers(local, foreign.drop_last(), peer);
        lemma_merges_keep_names(local, foreign.drop_last(), peer);
    }
}

/// A single merge is the step of `names_after_merges`: merging `foreign`
/// into a state whose usernames come from earlier merges extends them.
pub proof fn lemma_merge_step(
    local: Map<Seq<char>, Seq<char>>,
    earlier: Seq<Map<Seq<char>, Seq<char>>>,
    foreign: Map<Seq<char>, Seq<char>>,
)
    ensures
        names_after_merges(local, earlier.push(foreign)) == foreign.union_prefer_right(
            names_after_merges(local, earlier),
        ),
{
    assert(earlier.push(foreign).drop_last() =~= earlier);
}

} // verus!
