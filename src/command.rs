use vstd::prelude::*;
use vstd::string::StrSliceExecFns;

verus! {

/// A line typed by the local participant, as understood by the chat.
pub enum Command {
    /// `/msg <peer> <text>`: a chat line for one peer.
    Direct { peer: String, text: String },
    /// `/kick <peer>`: forget a peer locally.
    Kick { peer: String },
    /// `/users`: list the known peers.
    Users,
    /// Any other line: a chat line for every peer.
    Say { text: String },
}

pub open spec fn msg_word() -> Seq<char> {
    seq!['/', 'm', 's', 'g', ' ']
}

pub open spec fn kick_word() -> Seq<char> {
    seq!['/', 'k', 'i', 'c', 'k', ' ']
}

pub open spec fn users_word() -> Seq<char> {
    seq!['/', 'u', 's', 'e', 'r', 's']
}

pub open spec fn starts_with(s: Seq<char>, p: Seq<char>) -> bool {
    p.len() <= s.len() && s.subrange(0, p.len() as int) == p
}

/// `k` is the position of the first space of `s`, or its length when it
/// holds none.
pub open spec fn is_first_space(s: Seq<char>, k: int) -> bool {
    &&& 0 <= k <= s.len()
    &&& forall|j: int| 0 <= j < k ==> s[j] != ' '
    &&& k < s.len() ==> s[k] == ' '
}

/// `cmd` is what `line` means: `/msg ` then the peer up to the first space
/// and the text after it; `/kick ` then the peer; exactly `/users`; any
/// other line is said to everyone.
pub open spec fn means(line: Seq<char>, cmd: Command) -> bool {
    if starts_with(line, msg_word()) {
        let rest = line.skip(5);
        cmd matches Command::Direct { peer, text } && exists|k: int|
            is_first_space(rest, k) && peer@ == rest.take(k) && text@ == if k < rest.len() {
                rest.skip(k + 1)
            } else {
                Seq::empty()
            }
    } else if starts_with(line, kick_word()) {
        cmd matches Command::Kick { peer } && peer@ == line.skip(6)
    } else if line == users_word() {
        cmd is Users
    } else {
        cmd matches Command::Say { text } && text@ == line
    }
}

fn has_prefix(s: &str, n: usize, p: &[char]) -> (r: bool)
    requires
        n == s@.len(),
    ensures
        r == starts_with(s@, p@),
{
    if p.len() > n {
        return false;
    }
    let mut i: usize = 0;
    while i < p.len()
        invariant
            p@.len() <= n == s@.len(),
            i <= p@.len(),
            forall|j: int| 0 <= j < i ==> s@[j] == p@[j],
        decreases p@.len() - i,
    {
        if s.get_char(i) != p[i] {
            assert(s@.subrange(0, p@.len() as int)[i as int] != p@[i as int]);
            return false;
        }
        i = i + 1;
    }
    assert(s@.subrange(0, p@.len() as int) =~= p@);
    true
}

fn first_space(s: &str, from: usize, n: usize) -> (r: usize)
    requires
        n == s@.len(),
        from <= n,
    ensures
        is_first_space(s@.skip(from as int), r - from),
        from <= r <= n,
{
    let mut i: usize = from;
    while i < n
        invariant
            n == s@.len(),
            from <= i <= n,
            forall|j: int| from <= j < i ==> s@[j] != ' ',
        decreases n - i,
    {
        if s.get_char(i) == ' ' {
            return i;
        }
        i = i + 1;
    }
    i
}

impl Command {
    /// What the local line `line` asks for.
    pub fn parse(line: &String) -> (r: Command)
        ensures
            means(line@, r),
    {
        let s = line.as_str();
        let n = s.unicode_len();
        let msg = ['/', 'm', 's', 'g', ' '];
        let kick = ['/', 'k', 'i', 'c', 'k', ' '];
        let users = ['/', 'u', 's', 'e', 'r', 's'];
        assert(msg@ =~= msg_word());
        assert(kick@ =~= kick_word());
        assert(users@ =~= users_word());
        if has_prefix(s, n, msg.as_slice()) {
            let k = first_space(s, 5, n);
            let peer = s.substring_char(5, k).to_owned();
            let text = if k < n {
                s.substring_char(k + 1, n).to_owned()
            } else {
                String::new()
            };
            proof {
                let rest = line@.skip(5);
                assert(peer@ =~= rest.take(k - 5));
                if k < n {
                    assert(text@ =~= rest.skip(k - 5 + 1));
                }
            }
            Command::Direct { peer, text }
        } else if has_prefix(s, n, kick.as_slice()) {
            let peer = s.substring_char(6, n).to_owned();
            assert(peer@ =~= line@.skip(6));
            Command::Kick { peer }
        } else if n == 6 && has_prefix(s, n, users.as_slice()) {
            assert(line@ =~= users_word());
            Command::Users
        } else {
            proof {
                if line@ == users_word() {
                    assert(line@.subrange(0, 6) =~= line@);
                }
            }
            Command::Say { text: line.clone() }
        }
    }
}

} // verus!
