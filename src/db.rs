//! The in-memory form of the stored records and the allocation of ids.
use vstd::prelude::*;
use crate::models::{GameServer, Isp, Website};

verus! {

#[derive(Debug)]
pub struct Database {
    pub isps: Vec<Isp>,
    pub websites: Vec<Website>,
    pub game_servers: Vec<GameServer>,
    pub next_id: i64,
}

/// The largest id in a list of ids, or 0.
pub open spec fn max_id(ids: Seq<i64>) -> int
    decreases ids.len(),
{
    if ids.len() == 0 {
        0
    } else {
        let m = max_id(ids.drop_last());
        if ids.last() > m { ids.last() as int } else { m }
    }
}

impl Database {
    /// An empty database.
    pub fn new() -> (r: Database)
        ensures
            r.isps@.len() == 0,
            r.websites@.len() == 0,
            r.game_servers@.len() == 0,
            r.last_id() == 0,
    {
        Database { isps: Vec::new(), websites: Vec::new(), game_servers: Vec::new(), next_id: 0 }
    }

    /// The database with these records, ids continuing after the largest.
    pub fn with_records(isps: Vec<Isp>, websites: Vec<Website>, game_servers: Vec<GameServer>) -> (r: Database)
        ensures
            r.last_id() == max3(
                max_id(isps@.map_values(|x: Isp| x.id)),
                max_id(websites@.map_values(|x: Website| x.id)),
                max_id(game_servers@.map_values(|x: GameServer| x.id)),
            ),
    {
        let mut db = Database { isps, websites, game_servers, next_id: 0 };
        db.update_next_id();
        db
    }

    /// The id handed out last.
    pub open spec fn last_id(&self) -> int {
        self.next_id as int
    }

    /// Hands out the next id: one more than the last.
    pub fn get_next_id(&mut self) -> (r: i64)
        requires
            old(self).last_id() < i64::MAX,
        ensures
            r == old(self).last_id() + 1,
            final(self).last_id() == r,
            final(self).isps == old(self).isps,
            final(self).websites == old(self).websites,
            final(self).game_servers == old(self).game_servers,
    {
        self.next_id = self.next_id + 1;
        self.next_id
    }

    fn update_next_id(&mut self)
        ensures
            final(self).last_id() == max3(
                max_id(old(self).isps@.map_values(|x: Isp| x.id)),
                max_id(old(self).websites@.map_values(|x: Website| x.id)),
                max_id(old(self).game_servers@.map_values(|x: GameServer| x.id)),
            ),
            final(self).isps == old(self).isps,
            final(self).websites == old(self).websites,
            final(self).game_servers == old(self).game_servers,
    {
        let a = max_of(&ids_of_isps(&self.isps));
        let b = max_of(&ids_of_websites(&self.websites));
        let c = max_of(&ids_of_servers(&self.game_servers));
        let m = if a > b { a } else { b };
        self.next_id = if m > c { m } else { c };
    }
}

pub open spec fn max3(a: int, b: int, c: int) -> int {
    let m = if a > b { a } else { b };
    if m > c { m } else { c }
}

fn ids_of_isps(v: &Vec<Isp>) -> (r: Vec<i64>)
    ensures
        r@ == v@.map_values(|x: Isp| x.id),
{
    let mut out: Vec<i64> = Vec::new();
    let mut i: usize = 0;
    while i < v.len()
        invariant
            i <= v@.len(),
            out@ == v@.subrange(0, i as int).map_values(|x: Isp| x.id),
        decreases v.len() - i,
    {
        out.push(v[i].id);
        proof {
            assert(v@.subrange(0, i + 1).map_values(|x: Isp| x.id) =~= v@.subrange(0, i as int).map_values(
                |x: Isp| x.id,
            ).push(v@[i as int].id));
        }
        i = i + 1;
    }
    proof {
        assert(v@.subrange(0, v@.len() as int) =~= v@);
    }
    out
}

fn ids_of_websites(v: &Vec<Website>) -> (r: Vec<i64>)
    ensures
        r@ == v@.map_values(|x: Website| x.id),
{
    let mut out: Vec<i64> = Vec::new();
    let mut i: usize = 0;
    while i < v.len()
        invariant
            i <= v@.len(),
            out@ == v@.subrange(0, i as int).map_values(|x: Website| x.id),
        decreases v.len() - i,
    {
        out.push(v[i].id);
        proof {
            assert(v@.subrange(0, i + 1).map_values(|x: Website| x.id) =~= v@.subrange(0, i as int).map_values(
                |x: Website| x.id,
            ).push(v@[i as int].id));
        }
        i = i + 1;
    }
    proof {
        assert(v@.subrange(0, v@.len() as int) =~= v@);
    }
    out
}

fn ids_of_servers(v: &Vec<GameServer>) -> (r: Vec<i64>)
    ensures
        r@ == v@.map_values(|x: GameServer| x.id),
{
    let mut out: Vec<i64> = Vec::new();
    let mut i: usize = 0;
    while i < v.len()
        invariant
            i <= v@.len(),
            out@ == v@.subrange(0, i as int).map_values(|x: GameServer| x.id),
        decreases v.len() - i,
    {
        out.push(v[i].id);
        proof {
            assert(v@.subrange(0, i + 1).map_values(|x: GameServer| x.id) =~= v@.subrange(0, i as int).map_values(
                |x: GameServer| x.id,
            ).push(v@[i as int].id));
        }
        i = i + 1;
    }
    proof {
        assert(v@.subrange(0, v@.len() as int) =~= v@);
    }
    out
}

fn max_of(v: &Vec<i64>) -> (r: i64)
    ensures
        r == max_id(v@),
{
    let mut m: i64 = 0;
    let mut i: usize = 0;
    while i < v.len()
        invariant
            i <= v@.len(),
            m == max_id(v@.subrange(0, i as int)),
        decreases v.len() - i,
    {
        proof {
            assert(v@.subrange(0, i + 1).drop_last() =~= v@.subrange(0, i as int));
        }
        if v[i] > m {
            m = v[i];
        }
        i = i + 1;
    }
    proof {
        assert(v@.subrange(0, v@.len() as int) =~= v@);
    }
    m
}

} // verus!

verus! {

use crate::models::Protocol;
use crate::text::{chars_of, trim};

/// Why a record could not be added or removed.
#[derive(Debug, Clone, Copy, PartialEq, Eq, Structural)]
pub enum RecordError {
    EmptyName,
    EmptyIp,
    EmptyUrl,
    EmptyAddress,
    EmptyScript,
    AlreadyExists,
    NotFound,
    /// Every id has been handed out.
    IdsExhausted,
}

impl RecordError {
    /// The message reported to API clients.
    pub fn message(&self) -> &'static str {
        match self {
            RecordError::EmptyName => "Name cannot be empty",
            RecordError::EmptyIp => "IP cannot be empty",
            RecordError::EmptyUrl => "URL cannot be empty",
            RecordError::EmptyAddress => "Address cannot be empty",
            RecordError::EmptyScript => "Pseudo code cannot be empty",
            RecordError::AlreadyExists => "Record already exists",
            RecordError::NotFound => "Record not found",
            RecordError::IdsExhausted => "No ids left",
        }
    }
}

/// Whether the text is empty once whitespace is trimmed off.
pub open spec fn blank(s: Seq<char>) -> bool {
    crate::text::trim_spec(s).len() == 0
}

pub fn is_blank(s: &String) -> (r: bool)
    ensures
        r == blank(s@),
{
    trim(chars_of(s.as_str()).as_slice()).len() == 0
}

fn same_text(a: &String, b: &String) -> (r: bool)
    ensures
        r == (a@ == b@),
{
    crate::text::chars_eq(chars_of(a.as_str()).as_slice(), chars_of(b.as_str()).as_slice())
}

/// The position of the first record with id `id` in a list of ids, or -1.
pub open spec fn first_id(ids: Seq<i64>, id: i64) -> int
    decreases ids.len(),
{
    if ids.len() == 0 {
        -1
    } else if ids[0] == id {
        0
    } else {
        let k = first_id(ids.drop_first(), id);
        if k < 0 { -1 } else { k + 1 }
    }
}

proof fn lemma_first_id(ids: Seq<i64>, id: i64)
    ensures
        -1 <= first_id(ids, id) < ids.len(),
        first_id(ids, id) >= 0 ==> ids[first_id(ids, id)] == id,
        first_id(ids, id) < 0 <==> forall|i: int| 0 <= i < ids.len() ==> ids[i] != id,
    decreases ids.len(),
{
    if ids.len() > 0 {
        lemma_first_id(ids.drop_first(), id);
        if ids[0] != id {
            assert forall|i: int| 1 <= i < ids.len() implies ids[i] == ids.drop_first()[i - 1] by {}
        }
    }
}

fn find_id(ids: &Vec<i64>, id: i64) -> (r: Option<usize>)
    ensures
        match r {
            Some(i) => first_id(ids@, id) == i as int,
            None => first_id(ids@, id) == -1,
        },
{
    let mut i: usize = 0;
    proof {
        assert(ids@.subrange(0, ids@.len() as int) =~= ids@);
    }
    while i < ids.len()
        invariant
            i <= ids@.len(),
            forall|j: int| 0 <= j < i ==> ids@[j] != id,
        decreases ids.len() - i,
    {
        if ids[i] == id {
            proof {
                lemma_first_id(ids@, id);
                lemma_first_index(ids@, id, i as int);
            }
            return Some(i);
        }
        i = i + 1;
    }
    proof {
        lemma_first_id(ids@, id);
    }
    None
}

proof fn lemma_first_index(ids: Seq<i64>, id: i64, k: int)
    requires
        0 <= k < ids.len(),
        ids[k] == id,
        forall|j: int| 0 <= j < k ==> ids[j] != id,
    ensures
        first_id(ids, id) == k,
    decreases k,
{
    if k > 0 {
        let t = ids.drop_first();
        assert forall|j: int| 0 <= j < k - 1 implies t[j] != id by {
            assert(t[j] == ids[j + 1]);
        }
        lemma_first_index(t, id, k - 1);
    }
}

impl Database {
    /// Adds an ISP: the name and the IP must not be blank, and no ISP may
    /// have the same IP; the new ISP takes the next id.
    pub fn add_isp(&mut self, name: String, ip: String) -> (r: Result<i64, RecordError>)
        ensures
            blank(name@) ==> r == Err::<i64, RecordError>(RecordError::EmptyName),
            !blank(name@) && blank(ip@) ==> r == Err::<i64, RecordError>(RecordError::EmptyIp),
            !blank(name@) && !blank(ip@) && (exists|i: int| 0 <= i < old(self).isps@.len() && old(self).isps@[i].ip@ == ip@)
                ==> r == Err::<i64, RecordError>(RecordError::AlreadyExists),
            !blank(name@) && !blank(ip@) && (forall|i: int| 0 <= i < old(self).isps@.len() ==> old(self).isps@[i].ip@ != ip@)
                ==> if old(self).last_id() < i64::MAX {
                r == Ok::<i64, RecordError>((old(self).last_id() + 1) as i64) && final(self).isps@.len() == old(self).isps@.len() + 1
                    && final(self).isps@.drop_last() == old(self).isps@ && final(self).isps@.last().id == old(self).last_id() + 1
                    && final(self).isps@.last().name@ == name@ && final(self).isps@.last().ip@ == ip@
            } else {
                r == Err::<i64, RecordError>(RecordError::IdsExhausted)
            },
            r is Err ==> final(self).isps == old(self).isps,
            final(self).websites == old(self).websites,
            final(self).game_servers == old(self).game_servers,
    {
        if is_blank(&name) {
            return Err(RecordError::EmptyName);
        }
        if is_blank(&ip) {
            return Err(RecordError::EmptyIp);
        }
        let mut i: usize = 0;
        while i < self.isps.len()
            invariant
                !blank(name@),
                !blank(ip@),
                self.isps == old(self).isps,
                self.websites == old(self).websites,
                self.game_servers == old(self).game_servers,
                self.next_id == old(self).next_id,
                i <= self.isps@.len(),
                forall|j: int| 0 <= j < i ==> self.isps@[j].ip@ != ip@,
            decreases self.isps.len() - i,
        {
            if same_text(&self.isps[i].ip, &ip) {
                return Err(RecordError::AlreadyExists);
            }
            i = i + 1;
        }
        if self.next_id == i64::MAX {
            return Err(RecordError::IdsExhausted);
        }
        let id = self.get_next_id();
        self.isps.push(Isp { id, name, ip });
        proof {
            assert(self.isps@.drop_last() =~= old(self).isps@);
        }
        Ok(id)
    }

    /// Adds a website: the URL must not be blank, and no website may have
    /// the same URL; the new website takes the next id.
    pub fn add_website(&mut self, url: String, direct_connect: bool, direct_connect_url: Option<String>) -> (r: Result<i64, RecordError>)
        ensures
            blank(url@) ==> r == Err::<i64, RecordError>(RecordError::EmptyUrl),
            !blank(url@) && (exists|i: int| 0 <= i < old(self).websites@.len() && old(self).websites@[i].url@ == url@)
                ==> r == Err::<i64, RecordError>(RecordError::AlreadyExists),
            !blank(url@) && (forall|i: int| 0 <= i < old(self).websites@.len() ==> old(self).websites@[i].url@ != url@)
                ==> if old(self).last_id() < i64::MAX {
                r == Ok::<i64, RecordError>((old(self).last_id() + 1) as i64) && final(self).websites@.drop_last()
                    == old(self).websites@ && final(self).websites@.len() == old(self).websites@.len() + 1
                    && final(self).websites@.last().id == old(self).last_id() + 1 && final(self).websites@.last().url@ == url@
            } else {
                r == Err::<i64, RecordError>(RecordError::IdsExhausted)
            },
            r is Err ==> final(self).websites == old(self).websites,
            final(self).isps == old(self).isps,
            final(self).game_servers == old(self).game_servers,
    {
        if is_blank(&url) {
            return Err(RecordError::EmptyUrl);
        }
        let mut i: usize = 0;
        while i < self.websites.len()
            invariant
                !blank(url@),
                self.isps == old(self).isps,
                self.websites == old(self).websites,
                self.game_servers == old(self).game_servers,
                self.next_id == old(self).next_id,
                i <= self.websites@.len(),
                forall|j: int| 0 <= j < i ==> self.websites@[j].url@ != url@,
            decreases self.websites.len() - i,
        {
            if same_text(&self.websites[i].url, &url) {
                return Err(RecordError::AlreadyExists);
            }
            i = i + 1;
        }
        if self.next_id == i64::MAX {
            return Err(RecordError::IdsExhausted);
        }
        let id = self.get_next_id();
        self.websites.push(Website { id, url, direct_connect, direct_connect_url });
        proof {
            assert(self.websites@.drop_last() =~= old(self).websites@);
        }
        Ok(id)
    }

    /// Adds a game server: name, address and script must not be blank, and
    /// no server may have the same address, port and protocol; the new
    /// server takes the next id.
    pub fn add_game_server(
        &mut self,
        name: String,
        address: String,
        port: u16,
        protocol: Protocol,
        timeout_ms: u64,
        pseudo_code: String,
    ) -> (r: Result<i64, RecordError>)
        ensures
            blank(name@) ==> r == Err::<i64, RecordError>(RecordError::EmptyName),
            !blank(name@) && blank(address@) ==> r == Err::<i64, RecordError>(RecordError::EmptyAddress),
            !blank(name@) && !blank(address@) && blank(pseudo_code@) ==> r == Err::<i64, RecordError>(RecordError::EmptyScript),
            !blank(name@) && !blank(address@) && !blank(pseudo_code@) && (exists|i: int|
                0 <= i < old(self).game_servers@.len() && old(self).game_servers@[i].address@ == address@
                    && old(self).game_servers@[i].port == port && old(self).game_servers@[i].protocol == protocol)
                ==> r == Err::<i64, RecordError>(RecordError::AlreadyExists),
            r matches Ok(id) ==> id == old(self).last_id() + 1 && final(self).game_servers@.drop_last() == old(self).game_servers@
                && final(self).game_servers@.len() == old(self).game_servers@.len() + 1
                && final(self).game_servers@.last().id == id && final(self).game_servers@.last().address@ == address@,
            !blank(name@) && !blank(address@) && !blank(pseudo_code@) && (forall|i: int|
                0 <= i < old(self).game_servers@.len() ==> !(old(self).game_servers@[i].address@ == address@
                    && old(self).game_servers@[i].port == port && old(self).game_servers@[i].protocol == protocol))
                ==> (r is Ok <==> old(self).last_id() < i64::MAX),
            r is Err ==> final(self).game_servers == old(self).game_servers,
            final(self).isps == old(self).isps,
            final(self).websites == old(self).websites,
    {
        if is_blank(&name) {
            return Err(RecordError::EmptyName);
        }
        if is_blank(&address) {
            return Err(RecordError::EmptyAddress);
        }
        if is_blank(&pseudo_code) {
            return Err(RecordError::EmptyScript);
        }
        let mut i: usize = 0;
        while i < self.game_servers.len()
            invariant
                !blank(name@),
                !blank(address@),
                !blank(pseudo_code@),
                self.isps == old(self).isps,
                self.websites == old(self).websites,
                self.game_servers == old(self).game_servers,
                self.next_id == old(self).next_id,
                i <= self.game_servers@.len(),
                forall|j: int| 0 <= j < i ==> !(self.game_servers@[j].address@ == address@
                    && self.game_servers@[j].port == port && self.game_servers@[j].protocol == protocol),
            decreases self.game_servers.len() - i,
        {
            let g = &self.game_servers[i];
            if same_text(&g.address, &address) && g.port == port && g.protocol == protocol {
                return Err(RecordError::AlreadyExists);
            }
            i = i + 1;
        }
        if self.next_id == i64::MAX {
            return Err(RecordError::IdsExhausted);
        }
        let id = self.get_next_id();
        self.game_servers.push(GameServer { id, name, address, port, protocol, timeout_ms, pseudo_code });
        proof {
            assert(self.game_servers@.drop_last() =~= old(self).game_servers@);
        }
        Ok(id)
    }

    /// Removes the first ISP with this id.
    pub fn remove_isp(&mut self, id: i64) -> (r: Result<(), RecordError>)
        ensures
            ({
                let k = first_id(old(self).isps@.map_values(|x: Isp| x.id), id);
                &&& k < 0 ==> r == Err::<(), RecordError>(RecordError::NotFound) && final(self).isps == old(self).isps
                &&& k >= 0 ==> r is Ok && final(self).isps@ == old(self).isps@.remove(k)
            }),
            final(self).websites == old(self).websites,
            final(self).game_servers == old(self).game_servers,
    {
        let ids = ids_of_isps(&self.isps);
        match find_id(&ids, id) {
            Some(k) => {
                proof {
                    lemma_first_id(ids@, id);
                }
                let _gone = self.isps.remove(k);
                Ok(())
            },
            None => Err(RecordError::NotFound),
        }
    }

    /// Removes the first website with this id.
    pub fn remove_website(&mut self, id: i64) -> (r: Result<(), RecordError>)
        ensures
            ({
                let k = first_id(old(self).websites@.map_values(|x: Website| x.id), id);
                &&& k < 0 ==> r == Err::<(), RecordError>(RecordError::NotFound) && final(self).websites == old(self).websites
                &&& k >= 0 ==> r is Ok && final(self).websites@ == old(self).websites@.remove(k)
            }),
            final(self).isps == old(self).isps,
            final(self).game_servers == old(self).game_servers,
    {
        let ids = ids_of_websites(&self.websites);
        match find_id(&ids, id) {
            Some(k) => {
                proof {
                    lemma_first_id(ids@, id);
                }
                let _gone = self.websites.remove(k);
                Ok(())
            },
            None => Err(RecordError::NotFound),
        }
    }

    /// Removes the first game server with this id.
    pub fn remove_game_server(&mut self, id: i64) -> (r: Result<(), RecordError>)
        ensures
            ({
                let k = first_id(old(self).game_servers@.map_values(|x: GameServer| x.id), id);
                &&& k < 0 ==> r == Err::<(), RecordError>(RecordError::NotFound) && final(self).game_servers == old(self).game_servers
                &&& k >= 0 ==> r is Ok && final(self).game_servers@ == old(self).game_servers@.remove(k)
            }),
            final(self).isps == old(self).isps,
            final(self).websites == old(self).websites,
    {
        let ids = ids_of_servers(&self.game_servers);
        match find_id(&ids, id) {
            Some(k) => {
                proof {
                    lemma_first_id(ids@, id);
                }
                let _gone = self.game_servers.remove(k);
                Ok(())
            },
            None => Err(RecordError::NotFound),
        }
    }
}

/// The endpoint a preview probe runs against: the address and the script
/// must not be blank; a blank name becomes "Preview Server".
pub fn preview_server(name: String, address: String, port: u16, protocol: Protocol, timeout_ms: u64, pseudo_code: String) -> (r: Result<GameServer, RecordError>)
    ensures
        blank(address@) ==> r == Err::<GameServer, RecordError>(RecordError::EmptyAddress),
        !blank(address@) && blank(pseudo_code@) ==> r == Err::<GameServer, RecordError>(RecordError::EmptyScript),
        !blank(address@) && !blank(pseudo_code@) ==> (r matches Ok(g) && g.id == 0 && g.address@ == address@ && g.port == port
            && g.protocol == protocol && g.timeout_ms == timeout_ms && g.pseudo_code@ == pseudo_code@
            && g.name@ == (if blank(name@) { "Preview Server"@ } else { name@ })),
{
    if is_blank(&address) {
        return Err(RecordError::EmptyAddress);
    }
    if is_blank(&pseudo_code) {
        return Err(RecordError::EmptyScript);
    }
    let name = if is_blank(&name) { crate::text::string_of(chars_of("Preview Server").as_slice()) } else { name };
    Ok(GameServer { id: 0, name, address, port, protocol, timeout_ms, pseudo_code })
}

} // verus!
