//! The configuration of a node, and its validation.

use vstd::prelude::*;
use vstd::string::{StrSliceExecFns, StringExecFns};
use rand::distributions::{Alphanumeric, DistString};
use url::Url;
use crate::error::StoreError;
use crate::text::{count_of, decimal, decimal_of, parse_count, pieces_of, split_at_commas, split_commas};

verus! {

/// What `Url::parse` of the `url` crate makes of a text: `None` where it is
/// no absolute URL; otherwise the host of the URL, if it has one, and its
/// port, if it names one.
pub uninterp spec fn url_parts_of(input: Seq<char>) -> Option<(Option<Seq<char>>, Option<u16>)>;

/// The host and port of a parsed URL, as mathematical values.
pub open spec fn parts_view(parts: Option<(Option<String>, Option<u16>)>) -> Option<
    (Option<Seq<char>>, Option<u16>),
> {
    match parts {
        Some((Some(host), port)) => Some((Some(host@), port)),
        Some((None, port)) => Some((None, port)),
        None => None,
    }
}

/// Calls `Url::parse`, and on the URL `host_str` and `port`.  The outcome
/// depends on the text alone; nothing else is claimed of it.
#[verifier::external_body]
fn url_parts(input: &str) -> (parts: Option<(Option<String>, Option<u16>)>)
    ensures
        parts_view(parts) == url_parts_of(input@),
{
    match Url::parse(input) {
        Ok(url) => Some((url.host_str().map(String::from), url.port())),
        Err(_) => None,
    }
}

/// A letter or a digit of ASCII.
pub open spec fn alphanumeric(c: char) -> bool {
    ('0' <= c && c <= '9') || ('a' <= c && c <= 'z') || ('A' <= c && c <= 'Z')
}

/// `Alphanumeric.sample_string` of `rand`, with the generator of the
/// thread: a text of `length` characters, each a letter or a digit of
/// ASCII.  Which ones is left to chance.
#[verifier::external_body]
fn random_tag(length: usize) -> (tag: String)
    ensures
        tag@.len() == length,
        forall|i: int| 0 <= i < tag@.len() ==> alphanumeric(#[trigger] tag@[i]),
{
    Alphanumeric.sample_string(&mut rand::thread_rng(), length)
}

/// The text is an absolute URL.
pub open spec fn valid_url(input: Seq<char>) -> bool {
    url_parts_of(input).is_some()
}

/// Every text of the list is an absolute URL.
pub open spec fn valid_urls(list: Seq<Seq<char>>) -> bool {
    forall|i: int| 0 <= i < list.len() ==> valid_url(#[trigger] list[i])
}

/// The address at which a node with this URL listens: host, colon, port.
/// `None` where the text is no URL or the URL lacks a host or a port.
pub open spec fn address_of(server_url: Seq<char>) -> Option<Seq<char>> {
    address_of_parts(url_parts_of(server_url))
}

/// The address that the host and the port of a URL make.
pub open spec fn address_of_parts(parts: Option<(Option<Seq<char>>, Option<u16>)>) -> Option<
    Seq<char>,
> {
    match parts {
        Some((Some(host), Some(port))) => Some(host + ":"@ + decimal_of(port as nat)),
        _ => None,
    }
}

/// The address that the host and the port of a parsed URL make: host,
/// colon, port.  `ParseError` where the text was no URL or the URL lacks a
/// host or a port.
pub fn address_from_parts(parts: Option<(Option<String>, Option<u16>)>) -> (address: Result<
    String,
    StoreError,
>)
    ensures
        match address_of_parts(parts_view(parts)) {
            Some(a) => address matches Ok(text) && text@ == a,
            None => address matches Err(e) && e == StoreError::ParseError,
        },
{
    match parts {
        Some((Some(host), Some(port))) => {
            let mut address = host;
            address.append(":");
            address.append(decimal(port as u64).as_str());
            Ok(address)
        },
        _ => Err(StoreError::ParseError),
    }
}

/// How many characters the tag of a node has.
pub const NODE_ID_LENGTH: usize = 8;

/// The replication factor of a node that is not told another.
pub const DEFAULT_SYNC_WITH_REMOTES: usize = 2;

/// The configuration of a node.
#[derive(Debug)]
pub struct DatabaseConfig {
    server_url: String,
    initial_remote_addresses: Vec<String>,
    store_path: Option<String>,
    sync_with_remotes: usize,
    node_id: Option<String>,
}

/// A configuration as a mathematical value.
pub struct ConfigView {
    /// The URL at which the node listens.
    pub server_url: Seq<char>,
    /// The URLs of the peers with which the node gossips at start.
    pub initial_remote_addresses: Seq<Seq<char>>,
    /// The directory of the log and of the graph's image, if one is set.
    pub store_path: Option<Seq<char>>,
    /// The replication factor.
    pub sync_with_remotes: usize,
    /// The tag of the node, if one is set.
    pub node_id: Option<Seq<char>>,
}

impl ConfigView {
    /// The configuration of a node that is told nothing.
    pub open spec fn initial() -> ConfigView {
        ConfigView {
            server_url: Seq::empty(),
            initial_remote_addresses: Seq::empty(),
            store_path: None,
            sync_with_remotes: DEFAULT_SYNC_WITH_REMOTES,
            node_id: None,
        }
    }

    /// The configuration that the given settings make, once the URLs among
    /// them have been judged, or `None` where a URL was judged none, the
    /// replication factor is no count, or the tag has not eight characters.
    pub open spec fn judged(
        server_url: Option<Seq<char>>,
        server_url_valid: bool,
        initial_remote_addresses: Option<Seq<Seq<char>>>,
        remotes_valid: bool,
        store_path: Option<Seq<char>>,
        sync_with_remotes: Option<Seq<char>>,
        node_id: Option<Seq<char>>,
    ) -> Option<ConfigView> {
        if server_url.is_some() && !server_url_valid {
            None
        } else if initial_remote_addresses.is_some() && !remotes_valid {
            None
        } else if sync_with_remotes matches Some(n) && count_of(n).is_none() {
            None
        } else if node_id matches Some(id) && id.len() != NODE_ID_LENGTH {
            None
        } else {
            Some(
                ConfigView {
                    server_url: match server_url {
                        Some(u) => u,
                        None => Seq::empty(),
                    },
                    initial_remote_addresses: match initial_remote_addresses {
                        Some(list) => list,
                        None => Seq::empty(),
                    },
                    store_path,
                    sync_with_remotes: match sync_with_remotes {
                        Some(n) => count_of(n).unwrap(),
                        None => DEFAULT_SYNC_WITH_REMOTES,
                    },
                    node_id,
                },
            )
        }
    }

    /// The configuration that the given settings make, or `None` where one
    /// of them is not valid: a URL that is none, a replication factor that
    /// is no count, a tag that has not eight characters.  The peers are
    /// given as one text, their URLs between commas.
    pub open spec fn loaded(
        server_url: Option<Seq<char>>,
        initial_remote_urls: Option<Seq<char>>,
        store_path: Option<Seq<char>>,
        sync_with_remotes: Option<Seq<char>>,
        node_id: Option<Seq<char>>,
    ) -> Option<ConfigView> {
        ConfigView::judged(
            server_url,
            match server_url {
                Some(u) => valid_url(u),
                None => true,
            },
            match initial_remote_urls {
                Some(list) => Some(split_commas(list)),
                None => None,
            },
            match initial_remote_urls {
                Some(list) => valid_urls(split_commas(list)),
                None => true,
            },
            store_path,
            sync_with_remotes,
            node_id,
        )
    }
}

/// The views of an optional list of texts.
pub open spec fn list_view(list: Option<Vec<String>>) -> Option<Seq<Seq<char>>> {
    match list {
        Some(l) => Some(pieces_of(l@)),
        None => None,
    }
}

/// The views of an optional text.
pub open spec fn text_view(text: Option<String>) -> Option<Seq<char>> {
    match text {
        Some(t) => Some(t@),
        None => None,
    }
}

impl View for DatabaseConfig {
    type V = ConfigView;

    closed spec fn view(&self) -> ConfigView {
        ConfigView {
            server_url: self.server_url@,
            initial_remote_addresses: pieces_of(self.initial_remote_addresses@),
            store_path: text_view(self.store_path),
            sync_with_remotes: self.sync_with_remotes,
            node_id: text_view(self.node_id),
        }
    }
}

/// Whether a text is an absolute URL.
pub fn is_url(input: &str) -> (valid: bool)
    ensures
        valid == valid_url(input@),
{
    url_parts(input).is_some()
}

/// Whether every text of a list is an absolute URL.
pub fn are_urls(list: &Vec<String>) -> (valid: bool)
    ensures
        valid == valid_urls(pieces_of(list@)),
{
    let mut i: usize = 0;
    while i < list.len()
        invariant
            i <= list.len(),
            forall|j: int| 0 <= j < i ==> valid_url(#[trigger] pieces_of(list@)[j]),
        decreases list.len() - i,
    {
        if !is_url(list[i].as_str()) {
            assert(!valid_url(pieces_of(list@)[i as int]));
            return false;
        }
        i += 1;
    }
    true
}

impl Default for DatabaseConfig {
    fn default() -> (config: DatabaseConfig)
        ensures
            config@ == ConfigView::initial(),
    {
        let config = DatabaseConfig {
            server_url: String::new(),
            initial_remote_addresses: Vec::new(),
            store_path: None,
            sync_with_remotes: DEFAULT_SYNC_WITH_REMOTES,
            node_id: None,
        };
        assert(config@.initial_remote_addresses =~= Seq::<Seq<char>>::empty());
        config
    }
}

impl DatabaseConfig {
    /// The configuration that the given settings make, once the URLs among
    /// them have been judged: `server_url_valid` says whether the URL of the
    /// node is one, `remotes_valid` whether each URL of a peer is.  A setting
    /// that is `None` is not set, and the verdict on it does not count.
    /// `ParseError` where a URL was judged none, the replication factor is
    /// no count, or the tag has not eight characters.
    pub fn load(
        server_url: Option<String>,
        server_url_valid: bool,
        initial_remote_addresses: Option<Vec<String>>,
        remotes_valid: bool,
        store_path: Option<String>,
        sync_with_remotes: Option<String>,
        node_id: Option<String>,
    ) -> (config: Result<DatabaseConfig, StoreError>)
        ensures
            match ConfigView::judged(
                text_view(server_url),
                server_url_valid,
                list_view(initial_remote_addresses),
                remotes_valid,
                text_view(store_path),
                text_view(sync_with_remotes),
                text_view(node_id),
            ) {
                Some(view) => config matches Ok(c) && c@ == view,
                None => config matches Err(e) && e == StoreError::ParseError,
            },
    {
        let mut config = DatabaseConfig::default();
        if let Some(url) = server_url {
            if !server_url_valid {
                return Err(StoreError::ParseError);
            }
            config.server_url = url;
        }
        if let Some(addresses) = initial_remote_addresses {
            if !remotes_valid {
                return Err(StoreError::ParseError);
            }
            config.initial_remote_addresses = addresses;
        }
        if let Some(n) = sync_with_remotes {
            match parse_count(n.as_str()) {
                Some(count) => {
                    config.sync_with_remotes = count;
                },
                None => {
                    return Err(StoreError::ParseError);
                },
            }
        }
        if let Some(id) = node_id {
            if id.as_str().unicode_len() != NODE_ID_LENGTH {
                return Err(StoreError::ParseError);
            }
            config.node_id = Some(id);
        }
        config.store_path = store_path;
        Ok(config)
    }

    /// The configuration that the given settings make: each of them is what
    /// the environment holds under the name of one option, or `None` where
    /// it holds nothing.  The peers are given as one text, their URLs
    /// between commas.  `ParseError` where a setting is not valid.
    pub fn init(
        server_url: Option<String>,
        initial_remote_urls: Option<String>,
        store_path: Option<String>,
        sync_with_remotes: Option<String>,
        node_id: Option<String>,
    ) -> (config: Result<DatabaseConfig, StoreError>)
        ensures
            match ConfigView::loaded(
                text_view(server_url),
                text_view(initial_remote_urls),
                text_view(store_path),
                text_view(sync_with_remotes),
                text_view(node_id),
            ) {
                Some(view) => config matches Ok(c) && c@ == view,
                None => config matches Err(e) && e == StoreError::ParseError,
            },
    {
        let server_url_valid = match &server_url {
            Some(url) => is_url(url.as_str()),
            None => true,
        };
        let addresses = match &initial_remote_urls {
            Some(list) => Some(split_at_commas(list.as_str())),
            None => None,
        };
        let remotes_valid = match &addresses {
            Some(list) => are_urls(list),
            None => true,
        };
        DatabaseConfig::load(
            server_url,
            server_url_valid,
            addresses,
            remotes_valid,
            store_path,
            sync_with_remotes,
            node_id,
        )
    }

    /// Sets the URL at which the node listens.  `ParseError`, and nothing
    /// changed, where the text is no URL.
    pub fn set_server_url(&mut self, server_url: String) -> (set: Result<(), StoreError>)
        ensures
            match set {
                Ok(_) => valid_url(server_url@) && final(self)@ == (ConfigView {
                    server_url: server_url@,
                    ..old(self)@
                }),
                Err(e) => !valid_url(server_url@) && final(self)@ == old(self)@ && e
                    == StoreError::ParseError,
            },
    {
        if !is_url(server_url.as_str()) {
            return Err(StoreError::ParseError);
        }
        self.server_url = server_url;
        Ok(())
    }

    /// Sets the URLs of the peers with which the node gossips at start.
    /// `ParseError`, and nothing changed, where one of them is no URL.
    pub fn set_initial_remote_addresses(&mut self, initial_remote_addresses: Vec<String>) -> (set:
        Result<(), StoreError>)
        ensures
            match set {
                Ok(_) => valid_urls(pieces_of(initial_remote_addresses@)) && final(self)@
                    == (ConfigView {
                    initial_remote_addresses: pieces_of(initial_remote_addresses@),
                    ..old(self)@
                }),
                Err(e) => !valid_urls(pieces_of(initial_remote_addresses@)) && final(self)@ == old(
                    self,
                )@ && e == StoreError::ParseError,
            },
    {
        if !are_urls(&initial_remote_addresses) {
            return Err(StoreError::ParseError);
        }
        self.initial_remote_addresses = initial_remote_addresses;
        Ok(())
    }

    /// Sets the directory of the log and of the graph's image.
    pub fn set_store_path(&mut self, store_path: String)
        ensures
            final(self)@ == (ConfigView { store_path: Some(store_path@), ..old(self)@ }),
    {
        self.store_path = Some(store_path);
    }

    /// The URL at which the node listens.
    pub fn server_url(&self) -> (url: &String)
        ensures
            url@ == self@.server_url,
    {
        &self.server_url
    }

    /// The URLs of the peers with which the node gossips at start.
    pub fn initial_remote_addresses(&self) -> (list: &Vec<String>)
        ensures
            pieces_of(list@) == self@.initial_remote_addresses,
    {
        &self.initial_remote_addresses
    }

    /// The directory of the log and of the graph's image, if one is set.
    pub fn store_path(&self) -> (path: &Option<String>)
        ensures
            text_view(*path) == self@.store_path,
    {
        &self.store_path
    }

    /// The replication factor.
    pub fn sync_with_remotes(&self) -> (factor: usize)
        ensures
            factor == self@.sync_with_remotes,
    {
        self.sync_with_remotes
    }

    /// The tag of the node: the one that is set, where it has eight
    /// characters; otherwise eight letters and digits drawn at random.
    pub fn node_id(&self) -> (tag: String)
        ensures
            tag@.len() == NODE_ID_LENGTH,
            match self@.node_id {
                Some(id) if id.len() == NODE_ID_LENGTH => tag@ == id,
                _ => forall|i: int| 0 <= i < tag@.len() ==> alphanumeric(#[trigger] tag@[i]),
            },
    {
        match &self.node_id {
            Some(id) => {
                if id.as_str().unicode_len() == NODE_ID_LENGTH {
                    return id.clone();
                }
            },
            None => {},
        }
        random_tag(NODE_ID_LENGTH)
    }

    /// The address at which the node listens: the host and the port of its
    /// URL with a colon between them.  `ParseError` where the URL is none or
    /// lacks a host or a port.
    pub fn server_address(&self) -> (address: Result<String, StoreError>)
        ensures
            match address_of(self@.server_url) {
                Some(a) => address matches Ok(text) && text@ == a,
                None => address matches Err(e) && e == StoreError::ParseError,
            },
    {
        address_from_parts(url_parts(self.server_url.as_str()))
    }
}

} // verus!
