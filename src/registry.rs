use vstd::prelude::*;

use crate::text::same_text;

verus! {

/// One routed domain: which client owns it and which of its ports serves it.
pub struct TunnelRecord {
    pub domain: String,
    pub client_id: String,
    /// The connection that registered the record; the record lives no longer than it.
    pub connection: u64,
    pub target_port: u16,
    /// Seconds since the Unix epoch at registration.
    pub created_at: u64,
}

pub struct RecordView {
    pub domain: Seq<char>,
    pub client_id: Seq<char>,
    pub connection: u64,
    pub target_port: u16,
    pub created_at: u64,
}

impl View for TunnelRecord {
    type V = RecordView;

    open spec fn view(&self) -> RecordView {
        RecordView {
            domain: self.domain@,
            client_id: self.client_id@,
            connection: self.connection,
            target_port: self.target_port,
            created_at: self.created_at,
        }
    }
}

impl TunnelRecord {
    /// A copy of the record.
    pub fn duplicate(&self) -> (r: TunnelRecord)
        ensures
            r@ == self@,
    {
        TunnelRecord {
            domain: self.domain.clone(),
            client_id: self.client_id.clone(),
            connection: self.connection,
            target_port: self.target_port,
            created_at: self.created_at,
        }
    }
}

#[derive(Debug, Clone, Copy, PartialEq, Eq, Structural)]
pub enum RegistryError {
    /// Another record already holds the domain.
    DomainInUse,
}

pub open spec fn has_domain(s: Seq<RecordView>, d: Seq<char>) -> bool {
    exists|i: int| 0 <= i < s.len() && #[trigger] s[i].domain == d
}

/// No two records share a domain.
pub open spec fn unique_domains(s: Seq<RecordView>) -> bool {
    forall|i: int, j: int| 0 <= i < j < s.len() ==> s[i].domain != s[j].domain
}

/// The registry after `register`: `None` when the domain is taken.
pub open spec fn register_outcome(s: Seq<RecordView>, r: RecordView) -> Option<Seq<RecordView>> {
    if has_domain(s, r.domain) {
        None
    } else {
        Some(s.push(r))
    }
}

/// The registry after an attempt to register `r`, whether or not it succeeded.
pub open spec fn after_register(s: Seq<RecordView>, r: RecordView) -> Seq<RecordView> {
    match register_outcome(s, r) {
        Some(n) => n,
        None => s,
    }
}

/// The registry with every record for `d` removed.
pub open spec fn without(s: Seq<RecordView>, d: Seq<char>) -> Seq<RecordView>
    decreases s.len(),
{
    if s.len() == 0 {
        s
    } else if s.last().domain == d {
        without(s.drop_last(), d)
    } else {
        without(s.drop_last(), d).push(s.last())
    }
}

/// The record for `d`, if there is one.
pub open spec fn lookup(s: Seq<RecordView>, d: Seq<char>) -> Option<RecordView>
    decreases s.len(),
{
    if s.len() == 0 {
        None
    } else if s.last().domain == d {
        Some(s.last())
    } else {
        lookup(s.drop_last(), d)
    }
}

/// Whether a record passes the owner filter of a listing.
pub open spec fn owned_by(r: RecordView, owner: Option<Seq<char>>) -> bool {
    match owner {
        Some(c) => r.client_id == c,
        None => true,
    }
}

/// The domains that a listing with filter `owner` returns, in registration order.
pub open spec fn listed(s: Seq<RecordView>, owner: Option<Seq<char>>) -> Seq<Seq<char>>
    decreases s.len(),
{
    if s.len() == 0 {
        Seq::empty()
    } else if owned_by(s.last(), owner) {
        listed(s.drop_last(), owner).push(s.last().domain)
    } else {
        listed(s.drop_last(), owner)
    }
}

pub open spec fn records_view(v: Seq<TunnelRecord>) -> Seq<RecordView> {
    v.map_values(|r: TunnelRecord| r@)
}

/// The registry with every record registered through connection `c` removed.
pub open spec fn without_connection(s: Seq<RecordView>, c: u64) -> Seq<RecordView>
    decreases s.len(),
{
    if s.len() == 0 {
        s
    } else if s.last().connection == c {
        without_connection(s.drop_last(), c)
    } else {
        without_connection(s.drop_last(), c).push(s.last())
    }
}

proof fn lemma_without_connection_sub(s: Seq<RecordView>, c: u64)
    requires
        unique_domains(s),
    ensures
        unique_domains(without_connection(s, c)),
        forall|k: int|
            0 <= k < without_connection(s, c).len() ==> #[trigger] without_connection(s, c)[k].connection
                != c && s.contains(without_connection(s, c)[k]),
    decreases s.len(),
{
    if s.len() > 0 {
        let init = s.drop_last();
        assert forall|i: int, j: int| 0 <= i < j < init.len() implies init[i].domain != init[j].domain by {
            assert(init[i] == s[i] && init[j] == s[j]);
        }
        lemma_without_connection_sub(init, c);
        let wi = without_connection(init, c);
        let w = without_connection(s, c);
        assert forall|k: int| 0 <= k < wi.len() implies s.contains(#[trigger] wi[k]) by {
            assert(wi[k].connection != c);
            assert(init.contains(wi[k]));
            let j = choose|j: int| 0 <= j < init.len() && init[j] == wi[k];
            assert(s[j] == wi[k]);
        }
        if s.last().connection != c {
            assert forall|k: int| 0 <= k < wi.len() implies #[trigger] wi[k].domain != s.last().domain by {
                assert(wi[k].connection != c);
                assert(init.contains(wi[k]));
                let j = choose|j: int| 0 <= j < init.len() && init[j] == wi[k];
                assert(s[j] == wi[k]);
            }
            assert forall|i: int, j: int| 0 <= i < j < w.len() implies w[i].domain != w[j].domain by {
                if j == wi.len() {
                    assert(w[i] == wi[i]);
                } else {
                    assert(w[i] == wi[i] && w[j] == wi[j]);
                }
            }
            assert forall|k: int| 0 <= k < w.len() implies #[trigger] w[k].connection != c && s.contains(
                w[k],
            ) by {
                if k < wi.len() {
                    assert(w[k] == wi[k]);
                } else {
                    assert(s[s.len() - 1] == w[k]);
                }
            }
        }
    }
}

/// The server's table of active tunnels: at most one record per domain.
pub struct Registry {
    records: Vec<TunnelRecord>,
}

impl View for Registry {
    type V = Seq<RecordView>;

    closed spec fn view(&self) -> Seq<RecordView> {
        records_view(self.records@)
    }
}

impl Registry {
    pub open spec fn well_formed(&self) -> bool {
        unique_domains(self@)
    }

    /// An empty registry.
    pub fn new() -> (r: Registry)
        ensures
            r@ == Seq::<RecordView>::empty(),
            r.well_formed(),
    {
        let r = Registry { records: Vec::new() };
        assert(r@ =~= Seq::<RecordView>::empty());
        r
    }

    fn find(&self, domain: &str) -> (r: Option<usize>)
        ensures
            match r {
                Some(i) => i < self@.len() && self@[i as int].domain == domain@,
                None => !has_domain(self@, domain@),
            },
    {
        let mut i: usize = 0;
        while i < self.records.len()
            invariant
                i <= self@.len(),
                self@.len() == self.records@.len(),
                forall|k: int| 0 <= k < i ==> self@[k].domain != domain@,
            decreases self.records@.len() - i,
        {
            if same_text(self.records[i].domain.as_str(), domain) {
                return Some(i);
            }
            i += 1;
        }
        None
    }

    /// Adds a record for `domain` unless one exists, whoever owns it.
    pub fn register_tunnel(
        &mut self,
        domain: String,
        client_id: String,
        connection: u64,
        port: u16,
        created_at: u64,
    ) -> (r:
        Result<(), RegistryError>)
        requires
            old(self).well_formed(),
        ensures
            final(self).well_formed(),
            match register_outcome(
                old(self)@,
                (RecordView {
                    domain: domain@,
                    client_id: client_id@,
                    connection,
                    target_port: port,
                    created_at,
                }),
            ) {
                Some(n) => r is Ok && final(self)@ == n,
                None => r == Err::<(), RegistryError>(RegistryError::DomainInUse) && final(self)@ == old(self)@,
            },
    {
        match self.find(domain.as_str()) {
            Some(_) => Err(RegistryError::DomainInUse),
            None => {
                let rec = TunnelRecord { domain, client_id, connection, target_port: port, created_at };
                self.records.push(rec);
                assert(self@ =~= old(self)@.push(rec@));
                Ok(())
            },
        }
    }

    /// Removes the record for `domain`; an absent domain is left as it is.
    /// Returns whether a record was removed.
    pub fn unregister_tunnel(&mut self, domain: &str) -> (r: bool)
        requires
            old(self).well_formed(),
        ensures
            final(self).well_formed(),
            final(self)@ == without(old(self)@, domain@),
            r == has_domain(old(self)@, domain@),
    {
        match self.find(domain) {
            None => {
                proof {
                    lemma_without_absent(self@, domain@);
                }
                false
            },
            Some(i) => {
                let ghost before = self@;
                self.records.remove(i);
                proof {
                    assert(self@ =~= before.remove(i as int));
                    lemma_without_remove(before, domain@, i as int);
                }
                true
            },
        }
    }

    /// The record for `domain`, if there is one.
    pub fn get_tunnel(&self, domain: &str) -> (r: Option<TunnelRecord>)
        requires
            self.well_formed(),
        ensures
            match lookup(self@, domain@) {
                Some(rec) => r matches Some(x) && x@ == rec,
                None => r is None,
            },
    {
        match self.find(domain) {
            None => {
                proof {
                    lemma_lookup_absent(self@, domain@);
                }
                None
            },
            Some(i) => {
                proof {
                    lemma_lookup_at(self@, domain@, i as int);
                }
                Some(self.records[i].duplicate())
            },
        }
    }

    /// Removes every record registered through connection `connection`, as when
    /// that connection ends. Records of other connections stay, whoever owns them.
    pub fn release_connection(&mut self, connection: u64)
        requires
            old(self).well_formed(),
        ensures
            final(self).well_formed(),
            final(self)@ == without_connection(old(self)@, connection),
    {
        let ghost s = self@;
        let mut kept: Vec<TunnelRecord> = Vec::new();
        let mut i: usize = 0;
        assert(s.subrange(0, 0) =~= Seq::<RecordView>::empty());
        assert(records_view(kept@) =~= Seq::<RecordView>::empty());
        while i < self.records.len()
            invariant
                i <= s.len(),
                s == self@,
                s == records_view(self.records@),
                records_view(kept@) == without_connection(s.subrange(0, i as int), connection),
            decreases self.records@.len() - i,
        {
            assert(s.subrange(0, i + 1).drop_last() =~= s.subrange(0, i as int));
            assert(s[i as int] == self.records@[i as int]@);
            if self.records[i].connection != connection {
                let rec = self.records[i].duplicate();
                let ghost before = kept@;
                kept.push(rec);
                assert(records_view(kept@) =~= records_view(before).push(rec@));
            }
            i += 1;
        }
        assert(s.subrange(0, s.len() as int) =~= s);
        self.records = kept;
        proof {
            lemma_without_connection_sub(s, connection);
        }
    }

    /// Every record, in registration order.
    pub fn list_tunnels(&self) -> (r: Vec<TunnelRecord>)
        ensures
            records_view(r@) == self@,
    {
        let mut out: Vec<TunnelRecord> = Vec::new();
        let mut i: usize = 0;
        while i < self.records.len()
            invariant
                i <= self@.len(),
                self@ == records_view(self.records@),
                out@.len() == i,
                forall|k: int| 0 <= k < i ==> #[trigger] out@[k]@ == self@[k],
            decreases self.records@.len() - i,
        {
            let rec = self.records[i].duplicate();
            out.push(rec);
            i += 1;
        }
        assert(records_view(out@) =~= self@);
        out
    }

    /// The domains held by `owner`, or all domains when `owner` is `None`, in
    /// registration order.
    pub fn domains(&self, owner: Option<&str>) -> (r: Vec<String>)
        ensures
            r@.map_values(|s: String| s@) == listed(
                self@,
                match owner {
                    Some(c) => Some(c@),
                    None => None,
                },
            ),
    {
        let ghost filter = match owner {
            Some(c) => Some(c@),
            None => None::<Seq<char>>,
        };
        let mut out: Vec<String> = Vec::new();
        let mut i: usize = 0;
        assert(self@.subrange(0, 0) =~= Seq::<RecordView>::empty());
        assert(out@.map_values(|s: String| s@) =~= Seq::<Seq<char>>::empty());
        while i < self.records.len()
            invariant
                i <= self@.len(),
                self@.len() == self.records@.len(),
                filter == match owner {
                    Some(c) => Some(c@),
                    None => None::<Seq<char>>,
                },
                out@.map_values(|s: String| s@) == listed(self@.subrange(0, i as int), filter),
            decreases self.records@.len() - i,
        {
            let rec = &self.records[i];
            let keep = match owner {
                Some(c) => same_text(rec.client_id.as_str(), c),
                None => true,
            };
            assert(self@.subrange(0, i + 1).drop_last() =~= self@.subrange(0, i as int));
            assert(self@[i as int] == rec@);
            if keep {
                out.push(rec.domain.clone());
                assert(out@.map_values(|s: String| s@) =~= listed(
                    self@.subrange(0, i as int),
                    filter,
                ).push(rec.domain@));
            }
            i += 1;
        }
        assert(self@.subrange(0, self@.len() as int) =~= self@);
        out
    }
}

proof fn lemma_without_absent(s: Seq<RecordView>, d: Seq<char>)
    requires
        !has_domain(s, d),
    ensures
        without(s, d) == s,
    decreases s.len(),
{
    if s.len() > 0 {
        assert(s.last().domain == s[s.len() - 1].domain);
        let init = s.drop_last();
        assert forall|i: int| 0 <= i < init.len() implies #[trigger] init[i].domain != d by {
            assert(init[i] == s[i]);
        }
        lemma_without_absent(init, d);
        assert(init.push(s.last()) =~= s);
    }
}

proof fn lemma_without_remove(s: Seq<RecordView>, d: Seq<char>, i: int)
    requires
        unique_domains(s),
        0 <= i < s.len(),
        s[i].domain == d,
    ensures
        without(s, d) == s.remove(i),
        unique_domains(s.remove(i)),
    decreases s.len(),
{
    let init = s.drop_last();
    if i == s.len() - 1 {
        assert forall|k: int| 0 <= k < init.len() implies #[trigger] init[k].domain != d by {
            assert(init[k] == s[k]);
        }
        lemma_without_absent(init, d);
        assert(s.remove(i) =~= init);
    } else {
        assert(s.last().domain != d);
        lemma_without_remove(init, d, i);
        assert(init.remove(i).push(s.last()) =~= s.remove(i));
    }
}

proof fn lemma_lookup_absent(s: Seq<RecordView>, d: Seq<char>)
    requires
        !has_domain(s, d),
    ensures
        lookup(s, d) is None,
    decreases s.len(),
{
    if s.len() > 0 {
        assert(s.last().domain == s[s.len() - 1].domain);
        let init = s.drop_last();
        assert forall|i: int| 0 <= i < init.len() implies #[trigger] init[i].domain != d by {
            assert(init[i] == s[i]);
        }
        lemma_lookup_absent(init, d);
    }
}

proof fn lemma_lookup_at(s: Seq<RecordView>, d: Seq<char>, i: int)
    requires
        unique_domains(s),
        0 <= i < s.len(),
        s[i].domain == d,
    ensures
        lookup(s, d) == Some(s[i]),
    decreases s.len(),
{
    if i < s.len() - 1 {
        assert(s.last().domain != d);
        let init = s.drop_last();
        assert(init[i] == s[i]);
        lemma_lookup_at(init, d, i);
    }
}


proof fn lemma_register_keeps_unique(s: Seq<RecordView>, r: RecordView)
    requires
        unique_domains(s),
    ensures
        unique_domains(after_register(s, r)),
{
    if !has_domain(s, r.domain) {
        let n = s.push(r);
        assert forall|i: int, j: int| 0 <= i < j < n.len() implies n[i].domain != n[j].domain by {
            if j == s.len() {
                assert(n[i] == s[i]);
            } else {
                assert(n[i] == s[i] && n[j] == s[j]);
            }
        }
    }
}

pub(crate) proof fn lemma_without_drops(s: Seq<RecordView>, d: Seq<char>)
    ensures
        !has_domain(without(s, d), d),
        forall|r: RecordView| without(s, d).contains(r) <==> s.contains(r) && r.domain != d,
    decreases s.len(),
{
    if s.len() > 0 {
        let init = s.drop_last();
        lemma_without_drops(init, d);
        assert forall|r: RecordView| s.contains(r) <==> init.contains(r) || r == s.last() by {
            if s.contains(r) {
                let k = choose|k: int| 0 <= k < s.len() && s[k] == r;
                if k < init.len() {
                    assert(init[k] == r);
                }
            }
            if init.contains(r) {
                let k = choose|k: int| 0 <= k < init.len() && init[k] == r;
                assert(s[k] == r);
            }
            if r == s.last() {
                assert(s[s.len() - 1] == r);
            }
        }
        let w = without(s, d);
        let wi = without(init, d);
        if s.last().domain != d {
            assert forall|r: RecordView| w.contains(r) <==> wi.contains(r) || r == s.last() by {
                if w.contains(r) {
                    let k = choose|k: int| 0 <= k < w.len() && w[k] == r;
                    if k < wi.len() {
                        assert(wi[k] == r);
                    }
                }
                if wi.contains(r) {
                    let k = choose|k: int| 0 <= k < wi.len() && wi[k] == r;
                    assert(w[k] == r);
                }
                if r == s.last() {
                    assert(w[w.len() - 1] == r);
                }
            }
            assert forall|i: int| 0 <= i < w.len() implies #[trigger] w[i].domain != d by {
                if i < wi.len() {
                    assert(w[i] == wi[i]);
                }
            }
        }
    }
}

/// Registry uniqueness: of two registrations of one domain, by any two clients on
/// any ports and in either order, at most one succeeds. When the domain was free,
/// the first succeeds, the second is refused, and the domain then maps to the
/// first one's record alone.
pub proof fn lemma_registry_uniqueness(s: Seq<RecordView>, first: RecordView, second: RecordView)
    requires
        unique_domains(s),
        first.domain == second.domain,
    ensures
        !(register_outcome(s, first) is Some && register_outcome(
            after_register(s, first),
            second,
        ) is Some),
        unique_domains(after_register(after_register(s, first), second)),
        !has_domain(s, first.domain) ==> {
            &&& register_outcome(s, first) is Some
            &&& register_outcome(after_register(s, first), second) is None
            &&& lookup(after_register(after_register(s, first), second), first.domain) == Some(
                first,
            )
        },
{
    lemma_register_keeps_unique(s, first);
    lemma_register_keeps_unique(after_register(s, first), second);
    if register_outcome(s, first) is Some {
        let n = s.push(first);
        assert(n[s.len() as int].domain == second.domain);
        assert(has_domain(n, second.domain));
    } else {
        assert(after_register(s, first) == s);
        let i = choose|i: int| 0 <= i < s.len() && #[trigger] s[i].domain == first.domain;
        assert(s[i].domain == second.domain);
    }
}

/// Unregister idempotence: removing an absent domain changes nothing, and
/// removing a domain twice leaves the registry as removing it once does.
pub proof fn lemma_unregister_idempotent(s: Seq<RecordView>, d: Seq<char>)
    ensures
        !has_domain(s, d) ==> without(s, d) == s,
        without(without(s, d), d) == without(s, d),
        !has_domain(without(s, d), d),
{
    lemma_without_drops(s, d);
    lemma_without_absent(without(s, d), d);
    if !has_domain(s, d) {
        lemma_without_absent(s, d);
    }
}

/// List filtering: a listing for client `c` holds exactly the domains of the
/// records that `c` owns, whatever other clients hold.
pub proof fn lemma_listing_owned(s: Seq<RecordView>, c: Seq<char>)
    ensures
        forall|x: Seq<char>| #[trigger]
            listed(s, Some(c)).contains(x) <==> exists|i: int|
                0 <= i < s.len() && s[i].client_id == c && #[trigger] s[i].domain == x,
    decreases s.len(),
{
    if s.len() > 0 {
        let init = s.drop_last();
        lemma_listing_owned(init, c);
        let l = listed(s, Some(c));
        let li = listed(init, Some(c));
        assert forall|x: Seq<char>| #[trigger]
            l.contains(x) <==> exists|i: int|
                0 <= i < s.len() && s[i].client_id == c && #[trigger] s[i].domain == x by {
            if l.contains(x) {
                let k = choose|k: int| 0 <= k < l.len() && l[k] == x;
                if k < li.len() {
                    assert(li[k] == l[k]);
                    assert(li.contains(x));
                    let i = choose|i: int|
                        0 <= i < init.len() && init[i].client_id == c && #[trigger] init[i].domain
                            == x;
                    assert(s[i] == init[i]);
                } else {
                    assert(s[s.len() - 1].domain == x);
                }
            }
            if exists|i: int| 0 <= i < s.len() && s[i].client_id == c && #[trigger] s[i].domain == x {
                let i = choose|i: int|
                    0 <= i < s.len() && s[i].client_id == c && #[trigger] s[i].domain == x;
                if i < init.len() {
                    assert(init[i] == s[i]);
                    assert(li.contains(x));
                    let k = choose|k: int| 0 <= k < li.len() && li[k] == x;
                    assert(l[k] == x);
                } else {
                    assert(l[l.len() - 1] == x);
                }
            }
        }
    }
}

} // verus!
