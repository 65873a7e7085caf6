//! Tokens that authenticate nodes to each other: this node's own token,
//! and the token each peer presented, kept by the peer's node id.
use vstd::prelude::*;
use crate::node::{NodeId, generate_token, is_v4_uuid_text, lemma_uuid_text_not_blank, node_id_text, uuid_text};
use crate::runtime::index::{keys_distinct, lookup, lemma_lookup_at};
use crate::runtime::value::same_text;
use crate::text::{is_blank, trimmed};

verus! {

pub open spec fn pairs_view(s: Seq<(String, String)>) -> Seq<(Seq<char>, Seq<char>)> {
    s.map_values(|e: (String, String)| (e.0@, e.1@))
}

/// Store `val` under `k`, in place of what was there.
fn set_text_entry(v: &mut Vec<(String, String)>, k: String, val: String)
    requires
        keys_distinct(pairs_view(old(v)@)),
    ensures
        keys_distinct(pairs_view(final(v)@)),
        lookup(pairs_view(final(v)@), k@) == Some(val@),
        forall|k2: Seq<char>| k2 != k@ ==> lookup(pairs_view(final(v)@), k2) == lookup(pairs_view(old(v)@), k2),
{
    let ghost s0 = pairs_view(v@);
    let ghost kv = k@;
    let ghost vv = val@;
    let mut p: usize = 0;
    while p < v.len()
        invariant
            p <= v@.len(),
            s0 == pairs_view(v@),
            kv == k@,
            forall|i: int| 0 <= i < p ==> (#[trigger] s0[i]).0 != kv,
        ensures
            p <= v@.len(),
            s0 == pairs_view(v@),
            forall|i: int| 0 <= i < p ==> (#[trigger] s0[i]).0 != kv,
            p < v@.len() ==> s0[p as int].0 == kv,
        decreases v.len() - p,
    {
        proof {
            assert(s0[p as int].0 == v@[p as int].0@);
        }
        if same_text(v[p].0.as_str(), k.as_str()) {
            break;
        }
        p = p + 1;
    }
    if p < v.len() {
        v.set(p, (k, val));
        proof {
            let s1 = pairs_view(v@);
            assert(s1 =~= s0.update(p as int, (kv, vv)));
            assert forall|i: int, j: int| 0 <= i < s1.len() && 0 <= j < s1.len() && i != j implies (
            #[trigger] s1[i]).0 != (#[trigger] s1[j]).0 by {
                assert(s1[i].0 == s0[i].0 && s1[j].0 == s0[j].0);
            }
            lemma_lookup_at(s1, p as int);
            assert forall|k2: Seq<char>| k2 != kv implies lookup(s1, k2) == lookup(s0, k2) by {
                if exists|i: int| 0 <= i < s0.len() && (#[trigger] s0[i]).0 == k2 {
                    let i = choose|i: int| 0 <= i < s0.len() && (#[trigger] s0[i]).0 == k2;
                    lemma_lookup_at(s0, i);
                    lemma_lookup_at(s1, i);
                }
            }
        }
    } else {
        v.push((k, val));
        proof {
            let s1 = pairs_view(v@);
            assert(s1 =~= s0.push((kv, vv)));
            assert forall|i: int, j: int| 0 <= i < s1.len() && 0 <= j < s1.len() && i != j implies (
            #[trigger] s1[i]).0 != (#[trigger] s1[j]).0 by {
                if i < s0.len() && j < s0.len() {
                    assert(s1[i] == s0[i] && s1[j] == s0[j]);
                } else if i < s0.len() {
                    assert(s1[i] == s0[i]);
                } else {
                    assert(s1[j] == s0[j]);
                }
            }
            lemma_lookup_at(s1, s0.len() as int);
            assert forall|k2: Seq<char>| k2 != kv implies lookup(s1, k2) == lookup(s0, k2) by {
                if exists|i: int| 0 <= i < s0.len() && (#[trigger] s0[i]).0 == k2 {
                    let i = choose|i: int| 0 <= i < s0.len() && (#[trigger] s0[i]).0 == k2;
                    lemma_lookup_at(s0, i);
                    assert(s1[i] == s0[i]);
                    lemma_lookup_at(s1, i);
                } else {
                    assert forall|i: int| 0 <= i < s1.len() implies (#[trigger] s1[i]).0 != k2 by {
                        if i < s0.len() {
                            assert(s1[i] == s0[i]);
                        }
                    }
                }
            }
        }
    }
}

/// What a token file held when it was read.
pub enum StoredTokens {
    /// There is no file.
    Missing,
    /// The file is empty or white space only.
    Blank,
    /// The file held this node's token and the peers' tokens.
    Parsed { local_token: String, peers: Vec<(String, String)> },
}

/// This node's token and the peers' tokens, optionally kept in a file.
pub struct PeerTokenStore {
    path: Option<String>,
    local_token: String,
    peers: Vec<(String, String)>,
}

impl PeerTokenStore {
    /// The file the store is kept in, if any.
    pub closed spec fn path(&self) -> Option<Seq<char>> {
        match self.path {
            Some(p) => Some(p@),
            None => None,
        }
    }

    /// This node's token.
    pub closed spec fn token(&self) -> Seq<char> {
        self.local_token@
    }

    /// The peers' tokens by the text of their node ids.
    pub closed spec fn peers(&self) -> Seq<(Seq<char>, Seq<char>)> {
        pairs_view(self.peers@)
    }

    /// No peer appears twice, and this node's token is not blank.
    pub open spec fn wf(&self) -> bool {
        keys_distinct(self.peers()) && trimmed(self.token()).len() > 0
    }

    /// A store kept in no file, with a fresh token and no peers.
    pub fn new_in_memory() -> (r: Self)
        ensures
            r.wf(),
            r.path() is None,
            is_v4_uuid_text(r.token()),
            r.peers().len() == 0,
    {
        let r = PeerTokenStore { path: None, local_token: generate_token(), peers: Vec::new() };
        assert(r.peers() =~= Seq::<(Seq<char>, Seq<char>)>::empty());
        proof {
            lemma_uuid_text_not_blank(r.token());
        }
        r
    }

    /// The store for the file at `path`, given what the file held. A fresh
    /// token is drawn when there is no file, when it is blank, or when its
    /// own token is blank. Also returns whether the file must be written
    /// back: when it did not exist, was blank, or got a fresh token.
    pub fn load_or_create(path: String, stored: StoredTokens) -> (r: (Self, bool))
        ensures
            r.0.wf(),
            r.0.path() == Some(path@),
            match stored {
                StoredTokens::Missing | StoredTokens::Blank => {
                    &&& is_v4_uuid_text(r.0.token())
                    &&& r.0.peers().len() == 0
                    &&& r.1
                },
                StoredTokens::Parsed { local_token, peers } => {
                    &&& if trimmed(local_token@).len() == 0 {
                        is_v4_uuid_text(r.0.token()) && r.1
                    } else {
                        r.0.token() == local_token@ && !r.1
                    }
                    &&& forall|k: Seq<char>|
                        #![trigger lookup(r.0.peers(), k)]
                        lookup(r.0.peers(), k) == last_value_for(pairs_view(peers@), k, peers@.len() as int)
                },
            },
    {
        match stored {
            StoredTokens::Missing | StoredTokens::Blank => {
                let r = PeerTokenStore { path: Some(path), local_token: generate_token(), peers: Vec::new() };
                assert(r.peers() =~= Seq::<(Seq<char>, Seq<char>)>::empty());
                proof {
                    lemma_uuid_text_not_blank(r.token());
                }
                (r, true)
            },
            StoredTokens::Parsed { local_token, peers } => {
                let ghost pv = pairs_view(peers@);
                let mut kept: Vec<(String, String)> = Vec::new();
                let mut i: usize = 0;
                proof {
                    assert(pairs_view(kept@) =~= Seq::<(Seq<char>, Seq<char>)>::empty());
                }
                while i < peers.len()
                    invariant
                        i <= peers@.len(),
                        pv == pairs_view(peers@),
                        keys_distinct(pairs_view(kept@)),
                        forall|k: Seq<char>|
                            #![trigger lookup(pairs_view(kept@), k)]
                            lookup(pairs_view(kept@), k) == last_value_for(pv, k, i as int),
                    decreases peers.len() - i,
                {
                    let k = peers[i].0.clone();
                    let v = peers[i].1.clone();
                    proof {
                        assert(pv[i as int] == (k@, v@));
                    }
                    set_text_entry(&mut kept, k, v);
                    i = i + 1;
                }
                let fresh = is_blank(local_token.as_str());
                let token = if fresh {
                    generate_token()
                } else {
                    local_token
                };
                proof {
                    if fresh {
                        lemma_uuid_text_not_blank(token@);
                    }
                }
                (PeerTokenStore { path: Some(path), local_token: token, peers: kept }, fresh)
            },
        }
    }

    /// This node's token.
    pub fn local_token(&self) -> (r: String)
        ensures
            r@ == self.token(),
    {
        self.local_token.clone()
    }

    /// The token of the peer `peer_id`.
    pub fn get_peer_token(&self, peer_id: &NodeId) -> (r: Option<String>)
        requires
            self.wf(),
        ensures
            match r {
                Some(t) => lookup(self.peers(), uuid_text(*peer_id)) == Some(t@),
                None => lookup(self.peers(), uuid_text(*peer_id)) is None,
            },
    {
        let key = node_id_text(*peer_id);
        let mut p: usize = 0;
        while p < self.peers.len()
            invariant
                p <= self.peers@.len(),
                self.wf(),
                key@ == uuid_text(*peer_id),
                forall|i: int| 0 <= i < p ==> (#[trigger] self.peers()[i]).0 != key@,
            decreases self.peers.len() - p,
        {
            proof {
                assert(self.peers()[p as int] == (self.peers@[p as int].0@, self.peers@[p as int].1@));
            }
            if same_text(self.peers[p].0.as_str(), key.as_str()) {
                proof {
                    lemma_lookup_at(self.peers(), p as int);
                }
                return Some(self.peers[p].1.clone());
            }
            p = p + 1;
        }
        None
    }

    /// Keep `token` as the token of the peer `peer_id`. The store must then
    /// be written back to its file, if it has one.
    pub fn set_peer_token(&mut self, peer_id: &NodeId, token: String)
        requires
            old(self).wf(),
        ensures
            final(self).wf(),
            final(self).path() == old(self).path(),
            final(self).token() == old(self).token(),
            lookup(final(self).peers(), uuid_text(*peer_id)) == Some(token@),
            forall|k: Seq<char>| k != uuid_text(*peer_id) ==> lookup(final(self).peers(), k) == lookup(old(self).peers(), k),
    {
        let key = node_id_text(*peer_id);
        set_text_entry(&mut self.peers, key, token);
    }

    /// What a token file for the store holds: this node's token and the
    /// peers' tokens.
    pub fn contents(&self) -> (r: (String, Vec<(String, String)>))
        ensures
            r.0@ == self.token(),
            pairs_view(r.1@) == self.peers(),
    {
        let mut peers: Vec<(String, String)> = Vec::new();
        let mut i: usize = 0;
        while i < self.peers.len()
            invariant
                i <= self.peers@.len(),
                pairs_view(peers@) == self.peers().take(i as int),
            decreases self.peers.len() - i,
        {
            let ghost before = peers@;
            peers.push((self.peers[i].0.clone(), self.peers[i].1.clone()));
            proof {
                assert(self.peers()[i as int] == (self.peers@[i as int].0@, self.peers@[i as int].1@));
                assert(pairs_view(peers@) =~= pairs_view(before).push(self.peers()[i as int]));
                assert(self.peers().take(i + 1) =~= self.peers().take(i as int).push(self.peers()[i as int]));
                assert(pairs_view(peers@) =~= self.peers().take(i + 1));
            }
            i = i + 1;
        }
        proof {
            assert(self.peers().take(i as int) =~= self.peers());
        }
        (self.local_token.clone(), peers)
    }

    /// The file the store is kept in, if any.
    pub fn file_path(&self) -> (r: Option<&str>)
        ensures
            match r {
                Some(p) => self.path() == Some(p@),
                None => self.path() is None,
            },
    {
        match &self.path {
            Some(p) => Some(p.as_str()),
            None => None,
        }
    }
}

/// The value stored last under `k` among the first `n` pairs.
pub open spec fn last_value_for(pairs: Seq<(Seq<char>, Seq<char>)>, k: Seq<char>, n: int) -> Option<Seq<char>>
    decreases n,
{
    if n <= 0 {
        None
    } else if pairs[n - 1].0 == k {
        Some(pairs[n - 1].1)
    } else {
        last_value_for(pairs, k, n - 1)
    }
}

proof fn lemma_last_value(pairs: Seq<(Seq<char>, Seq<char>)>, k: Seq<char>, n: int)
    requires
        keys_distinct(pairs),
        0 <= n <= pairs.len(),
    ensures
        forall|i: int| 0 <= i < n && pairs[i].0 == k ==> last_value_for(pairs, k, n) == Some(#[trigger] pairs[i].1),
        (forall|i: int| 0 <= i < n ==> (#[trigger] pairs[i]).0 != k) ==> last_value_for(pairs, k, n) is None,
    decreases n,
{
    if n > 0 {
        lemma_last_value(pairs, k, n - 1);
    }
}

/// A store read back from its own contents (as `contents` gives them)
/// keeps its tokens: its own token is never blank, so `load_or_create`
/// keeps it and asks for no rewrite, and the last token stored for each
/// peer is the one the store holds.
pub proof fn lemma_reload_keeps_tokens(s: PeerTokenStore)
    requires
        s.wf(),
    ensures
        trimmed(s.token()).len() > 0,
        forall|k: Seq<char>| #[trigger] last_value_for(s.peers(), k, s.peers().len() as int) == lookup(s.peers(), k),
{
    let p = s.peers();
    assert forall|k: Seq<char>| #[trigger] last_value_for(p, k, p.len() as int) == lookup(p, k) by {
        lemma_last_value(p, k, p.len() as int);
        if exists|i: int| 0 <= i < p.len() && (#[trigger] p[i]).0 == k {
            let i = choose|i: int| 0 <= i < p.len() && (#[trigger] p[i]).0 == k;
            lemma_lookup_at(p, i);
        }
    }
}

} // verus!
