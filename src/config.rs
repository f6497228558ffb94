use vstd::prelude::*;

use crate::text::same_text;

verus! {

/// A tunnel saved in the configuration.
pub struct TunnelConfig {
    pub domain: String,
    pub local_port: u16,
    pub enabled: bool,
}

/// Why a configuration lookup failed.
#[derive(Debug, PartialEq, Eq)]
pub enum ConfigError {
    /// The name is neither a node identifier nor a known alias.
    UnknownServer(String),
}

/// Saved client settings: server aliases, the default server and saved tunnels.
pub struct Config {
    /// Alias name and server node identifier; where a name occurs twice, the
    /// first entry is the one used.
    pub servers: Vec<(String, String)>,
    pub default_server: Option<String>,
    pub tunnels: Vec<TunnelConfig>,
}

/// Whether a server argument is taken as a node identifier as it stands: it starts
/// with `node`, or its UTF-8 form is 52 bytes long (the length of a printed key).
pub open spec fn looks_like_node_id(s: Seq<char>) -> bool {
    (s.len() >= 4 && s[0] == 'n' && s[1] == 'o' && s[2] == 'd' && s[3] == 'e') || vstd::utf8::encode_utf8(
        s,
    ).len() == 52
}

pub open spec fn servers_view(v: Seq<(String, String)>) -> Seq<(Seq<char>, Seq<char>)> {
    v.map_values(|e: (String, String)| (e.0@, e.1@))
}

/// The node identifier of the first alias entry named `name`.
pub open spec fn alias_of(s: Seq<(Seq<char>, Seq<char>)>, name: Seq<char>) -> Option<Seq<char>>
    decreases s.len(),
{
    if s.len() == 0 {
        None
    } else {
        match alias_of(s.drop_last(), name) {
            Some(v) => Some(v),
            None => if s.last().0 == name {
                Some(s.last().1)
            } else {
                None
            },
        }
    }
}

/// What `resolve_server` yields: the argument itself when it reads as a node
/// identifier, else the aliased identifier.
pub open spec fn resolution(s: Seq<(Seq<char>, Seq<char>)>, name: Seq<char>) -> Option<Seq<char>> {
    if looks_like_node_id(name) {
        Some(name)
    } else {
        alias_of(s, name)
    }
}

impl Default for Config {
    /// A configuration with no aliases, no default server and no tunnels.
    fn default() -> (r: Config)
        ensures
            r.servers@.len() == 0,
            r.default_server is None,
            r.tunnels@.len() == 0,
    {
        Config { servers: Vec::new(), default_server: None, tunnels: Vec::new() }
    }
}

impl Config {
    /// A configuration with no aliases, no default server and no tunnels.
    pub fn new() -> (r: Config)
        ensures
            r.servers@.len() == 0,
            r.default_server is None,
            r.tunnels@.len() == 0,
    {
        Config::default()
    }

    /// The node identifier for a server named by identifier or by alias.
    pub fn resolve_server(&self, name_or_id: &str) -> (r: Result<String, ConfigError>)
        ensures
            match resolution(servers_view(self.servers@), name_or_id@) {
                Some(id) => r matches Ok(x) && x@ == id,
                None => r matches Err(ConfigError::UnknownServer(n)) && n@ == name_or_id@,
            },
    {
        let n = name_or_id.unicode_len();
        let prefixed = n >= 4 && name_or_id.get_char(0) == 'n' && name_or_id.get_char(1) == 'o'
            && name_or_id.get_char(2) == 'd' && name_or_id.get_char(3) == 'e';
        if prefixed || name_or_id.as_bytes().len() == 52 {
            let r = name_or_id.to_owned();
            assert(r@ == name_or_id@);
            return Ok(r);
        }
        let ghost v = servers_view(self.servers@);
        let mut i: usize = 0;
        while i < self.servers.len()
            invariant
                i <= self.servers@.len(),
                v == servers_view(self.servers@),
                !looks_like_node_id(name_or_id@),
                alias_of(v.subrange(0, i as int), name_or_id@) is None,
            decreases self.servers@.len() - i,
        {
            assert(v.subrange(0, i + 1).drop_last() =~= v.subrange(0, i as int));
            let entry = &self.servers[i];
            if same_text(entry.0.as_str(), name_or_id) {
                proof {
                    lemma_alias_prefix(v, name_or_id@, i + 1);
                }
                return Ok(entry.1.clone());
            }
            i += 1;
        }
        assert(v.subrange(0, self.servers@.len() as int) =~= v);
        Err(ConfigError::UnknownServer(name_or_id.to_owned()))
    }
}

proof fn lemma_alias_prefix(s: Seq<(Seq<char>, Seq<char>)>, name: Seq<char>, k: int)
    requires
        0 <= k <= s.len(),
        alias_of(s.subrange(0, k), name) is Some,
    ensures
        alias_of(s, name) == alias_of(s.subrange(0, k), name),
    decreases s.len() - k,
{
    if k < s.len() {
        assert(s.subrange(0, k + 1).drop_last() =~= s.subrange(0, k));
        lemma_alias_prefix(s, name, k + 1);
    } else {
        assert(s.subrange(0, k) =~= s);
    }
}

/// Expands a leading `~/` of a path to the home directory, when one is known.
pub open spec fn tilde_expansion(path: Seq<char>, home: Option<Seq<char>>) -> Seq<char> {
    match home {
        Some(h) => if path.len() >= 2 && path[0] == '~' && path[1] == '/' {
            h + path.subrange(1, path.len() as int)
        } else {
            path
        },
        None => path,
    }
}

/// The path with a leading `~` replaced by `home` where it starts with `~/`.
pub fn tilde(path: &str, home: Option<&str>) -> (r: String)
    ensures
        r@ == tilde_expansion(
            path@,
            match home {
                Some(h) => Some(h@),
                None => None,
            },
        ),
{
    match home {
        Some(h) => {
            let n = path.unicode_len();
            if n >= 2 && path.get_char(0) == '~' && path.get_char(1) == '/' {
                let rest = path.substring_char(1, n);
                h.to_owned().concat(rest)
            } else {
                path.to_owned()
            }
        },
        None => path.to_owned(),
    }
}

/// The set of client identities allowed to connect.
pub struct Auth {
    ids: Vec<String>,
}

impl View for Auth {
    type V = Set<Seq<char>>;

    closed spec fn view(&self) -> Set<Seq<char>> {
        Set::new(|x: Seq<char>| exists|i: int| 0 <= i < self.ids@.len() && #[trigger] self.ids@[i]@ == x)
    }
}

impl Auth {
    /// An allow-list with nobody on it.
    pub fn new() -> (r: Auth)
        ensures
            r@ == Set::<Seq<char>>::empty(),
    {
        let r = Auth { ids: Vec::new() };
        assert(r@ =~= Set::<Seq<char>>::empty());
        r
    }

    /// Whether `node_id` is on the list.
    pub fn is_authorized(&self, node_id: &str) -> (r: bool)
        ensures
            r == self@.contains(node_id@),
    {
        let mut i: usize = 0;
        while i < self.ids.len()
            invariant
                i <= self.ids@.len(),
                forall|k: int| 0 <= k < i ==> self.ids@[k]@ != node_id@,
            decreases self.ids@.len() - i,
        {
            if same_text(self.ids[i].as_str(), node_id) {
                return true;
            }
            i += 1;
        }
        false
    }

    /// Puts `node_id` on the list.
    pub fn authorize(&mut self, node_id: &str)
        ensures
            final(self)@ == old(self)@.insert(node_id@),
    {
        if !self.is_authorized(node_id) {
            let ghost before = self.ids@;
            self.ids.push(node_id.to_owned());
            assert forall|x: Seq<char>| #[trigger] final(self)@.contains(x) == old(self)@.insert(
                node_id@,
            ).contains(x) by {
                if old(self)@.contains(x) {
                    let i = choose|i: int| 0 <= i < before.len() && #[trigger] before[i]@ == x;
                    assert(self.ids@[i] == before[i]);
                }
                if final(self)@.contains(x) {
                    let i = choose|i: int| 0 <= i < self.ids@.len() && #[trigger] self.ids@[i]@ == x;
                    if i < before.len() {
                        assert(self.ids@[i] == before[i]);
                    }
                }
                if x == node_id@ {
                    assert(self.ids@[before.len() as int]@ == x);
                }
            }
        }
        assert(final(self)@ =~= old(self)@.insert(node_id@));
    }

    /// Takes `node_id` off the list; an absent one is no error.
    pub fn revoke(&mut self, node_id: &str)
        ensures
            final(self)@ == old(self)@.remove(node_id@),
    {
        let mut kept: Vec<String> = Vec::new();
        let mut i: usize = 0;
        while i < self.ids.len()
            invariant
                i <= self.ids@.len(),
                self.ids@ == old(self).ids@,
                forall|k: int| 0 <= k < kept@.len() ==> #[trigger] kept@[k]@ != node_id@,
                forall|k: int|
                    0 <= k < kept@.len() ==> exists|j: int|
                        0 <= j < i && #[trigger] self.ids@[j]@ == (#[trigger] kept@[k])@,
                forall|j: int|
                    0 <= j < i && #[trigger] self.ids@[j]@ != node_id@ ==> exists|k: int|
                        0 <= k < kept@.len() && kept@[k]@ == self.ids@[j]@,
            decreases self.ids@.len() - i,
        {
            if !same_text(self.ids[i].as_str(), node_id) {
                let ghost before = kept@;
                kept.push(self.ids[i].clone());
                assert forall|k: int| 0 <= k < kept@.len() implies exists|j: int|
                    0 <= j < i + 1 && #[trigger] self.ids@[j]@ == (#[trigger] kept@[k])@ by {
                    if k < before.len() {
                        assert(kept@[k] == before[k]);
                    } else {
                        assert(self.ids@[i as int]@ == kept@[k]@);
                    }
                }
                assert forall|j: int| 0 <= j < i + 1 && #[trigger] self.ids@[j]@ != node_id@ implies exists|
                    k: int,
                | 0 <= k < kept@.len() && kept@[k]@ == self.ids@[j]@ by {
                    if j < i {
                        let k = choose|k: int| 0 <= k < before.len() && before[k]@ == self.ids@[j]@;
                        assert(kept@[k] == before[k]);
                    } else {
                        assert(kept@[before.len() as int]@ == self.ids@[j]@);
                    }
                }
            }
            i += 1;
        }
        let ghost old_ids = self.ids@;
        self.ids = kept;
        assert forall|x: Seq<char>| #[trigger] final(self)@.contains(x) == old(self)@.remove(
            node_id@,
        ).contains(x) by {
            if old(self)@.remove(node_id@).contains(x) {
                let j = choose|j: int| 0 <= j < old_ids.len() && #[trigger] old_ids[j]@ == x;
                assert(old_ids[j]@ != node_id@);
            }
        }
        assert(final(self)@ =~= old(self)@.remove(node_id@));
    }
}

} // verus!
