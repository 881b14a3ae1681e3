//! A store of fake addresses that is kept across runs, or one that is not.
use vstd::prelude::*;

use crate::dns::fakeip::file_store::FileStore;
use crate::dns::fakeip::mem_store::{InMemStore, StoreState};
use crate::dns::fakeip::Store;
use crate::ip::IpAddr;

verus! {

/// How many entries a store in memory has.
pub const MEMORY_LIMIT: usize = 1000;

/// A store of fake addresses that is kept across runs, or one that is not.
pub enum AnyStore {
    File(FileStore),
    Memory(InMemStore),
}

impl AnyStore {
    /// The store that is kept across runs, where there is one, else an empty one in memory.
    pub fn new(file: Option<FileStore>) -> (res: AnyStore)
        requires
            file matches Some(f) ==> f.wf(),
        ensures
            res.wf(),
            match file {
                Some(f) => res == AnyStore::File(f),
                None => res is Memory && res.state() == StoreState::empty(MEMORY_LIMIT as nat)
                    && res.offset_v4() == 0 && res.offset_v6() == 0,
            },
    {
        match file {
            Some(f) => AnyStore::File(f),
            None => AnyStore::Memory(InMemStore::new(MEMORY_LIMIT)),
        }
    }
}

impl Store for AnyStore {
    open spec fn state(&self) -> StoreState {
        match self {
            AnyStore::File(s) => s.state(),
            AnyStore::Memory(s) => s.state(),
        }
    }

    open spec fn wf(&self) -> bool {
        match self {
            AnyStore::File(s) => s.wf(),
            AnyStore::Memory(s) => s.wf(),
        }
    }

    open spec fn offset_v4(&self) -> u32 {
        match self {
            AnyStore::File(s) => s.offset_v4(),
            AnyStore::Memory(s) => s.offset_v4(),
        }
    }

    open spec fn offset_v6(&self) -> u128 {
        match self {
            AnyStore::File(s) => s.offset_v6(),
            AnyStore::Memory(s) => s.offset_v6(),
        }
    }

    proof fn lemma_wf(&self) {
        match self {
            AnyStore::File(s) => s.lemma_wf(),
            AnyStore::Memory(s) => s.lemma_wf(),
        }
    }

    fn get_by_host(&self, host: &str) -> (res: Option<IpAddr>) {
        match self {
            AnyStore::File(s) => s.get_by_host(host),
            AnyStore::Memory(s) => s.get_by_host(host),
        }
    }

    fn get_v6_by_host(&self, host: &str) -> (res: Option<IpAddr>) {
        match self {
            AnyStore::File(s) => s.get_v6_by_host(host),
            AnyStore::Memory(s) => s.get_v6_by_host(host),
        }
    }

    fn put_by_host(&mut self, host: &str, ip: IpAddr) {
        match self {
            AnyStore::File(s) => s.put_by_host(host, ip),
            AnyStore::Memory(s) => s.put_by_host(host, ip),
        }
    }

    fn get_by_ip(&self, ip: IpAddr) -> (res: Option<String>) {
        match self {
            AnyStore::File(s) => s.get_by_ip(ip),
            AnyStore::Memory(s) => s.get_by_ip(ip),
        }
    }

    fn put_by_ip(&mut self, ip: IpAddr, host: &str) {
        match self {
            AnyStore::File(s) => s.put_by_ip(ip, host),
            AnyStore::Memory(s) => s.put_by_ip(ip, host),
        }
    }

    fn del_by_ip(&mut self, ip: IpAddr) {
        match self {
            AnyStore::File(s) => s.del_by_ip(ip),
            AnyStore::Memory(s) => s.del_by_ip(ip),
        }
    }

    fn exist(&self, ip: IpAddr) -> (res: bool) {
        match self {
            AnyStore::File(s) => s.exist(ip),
            AnyStore::Memory(s) => s.exist(ip),
        }
    }

    fn initial_offset_v4(&self) -> (res: u32) {
        match self {
            AnyStore::File(s) => s.initial_offset_v4(),
            AnyStore::Memory(s) => s.initial_offset_v4(),
        }
    }

    fn initial_offset_v6(&self) -> (res: u128) {
        match self {
            AnyStore::File(s) => s.initial_offset_v6(),
            AnyStore::Memory(s) => s.initial_offset_v6(),
        }
    }
}

} // verus!
