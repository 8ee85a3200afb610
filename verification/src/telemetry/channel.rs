//! The registry of telemetry channels: each channel's configuration by its
//! identifier, and each identifier by the name it was registered under.
//!
//! The two maps are kept as the registry's operations leave them: a
//! channel registered again under a new name replaces the configuration
//! kept for its identifier, and both names then lead to it.

use vstd::prelude::*;

use std::sync::Arc;

use crate::dbc::types::str_eq;
use crate::telemetry::base::{ChannelConfig, ChannelId, DataType, TelemetryError};
use crate::telemetry::ingestion::{eof_error, eof_text, read_word, word, ByteOrder};
use crate::telemetry::entries::{
    has_key, key_slot, keys_distinct, lemma_key_slot, upsert_entry, without_key,
};
use crate::text::push_str;

verus! {

/// The names of `entries` as characters, each with its channel.
pub open spec fn name_views(entries: Seq<(String, ChannelId)>) -> Seq<(Seq<char>, ChannelId)> {
    entries.map_values(|e: (String, ChannelId)| (e.0@, e.1))
}

/// The configuration `channels` keep for `id`.
pub open spec fn config_for(channels: Seq<(ChannelId, ChannelConfig)>, id: ChannelId) -> Option<
    ChannelConfig,
> {
    if has_key(channels, id) {
        Some(channels[key_slot(channels, id)].1)
    } else {
        None
    }
}

/// The channel `names` give `name`.
pub open spec fn id_for(names: Seq<(Seq<char>, ChannelId)>, name: Seq<char>) -> Option<ChannelId> {
    if has_key(names, name) {
        Some(names[key_slot(names, name)].1)
    } else {
        None
    }
}

/// The value a lookup found.
pub open spec fn found<T>(r: Option<&T>) -> Option<T> {
    match r {
        Some(t) => Some(*t),
        None => None,
    }
}

/// The message for a name that is taken.
pub open spec fn name_taken(name: Seq<char>) -> Seq<char> {
    "Channel name '"@ + name + "' already exists"@
}

/// A configuration kept for an identifier is what a lookup of that
/// identifier finds, and identifiers stay unique.
pub proof fn lemma_kept_is_found(channels: Seq<(ChannelId, ChannelConfig)>, config: ChannelConfig)
    requires
        keys_distinct(channels),
    ensures
        keys_distinct(upsert_entry(channels, config.id, config)),
        config_for(upsert_entry(channels, config.id, config), config.id) == Some(config),
{
    let t = upsert_entry(channels, config.id, config);
    let i = if has_key(channels, config.id) {
        key_slot(channels, config.id)
    } else {
        channels.len() as int
    };
    assert(t[i].0 == config.id);
    lemma_key_slot(t, i);
}

/// A name given to a channel leads to it, unless the name was taken.
pub proof fn lemma_named_is_found(names: Seq<(Seq<char>, ChannelId)>, name: Seq<char>, id: ChannelId)
    requires
        keys_distinct(names),
        !has_key(names, name),
    ensures
        keys_distinct(names.push((name, id))),
        id_for(names.push((name, id)), name) == Some(id),
{
    let t = names.push((name, id));
    assert(t[names.len() as int].0 == name);
    lemma_key_slot(t, names.len() as int);
}

/// A removed channel is found no more, by identifier or, through the name
/// it carried, by name.
pub proof fn lemma_removed_is_gone(
    channels: Seq<(ChannelId, ChannelConfig)>,
    names: Seq<(Seq<char>, ChannelId)>,
    id: ChannelId,
    name: Seq<char>,
)
    requires
        keys_distinct(channels),
        keys_distinct(names),
    ensures
        config_for(without_key(channels, id), id) is None,
        id_for(without_key(names, name), name) is None,
{
    if has_key(channels, id) {
        let k = key_slot(channels, id);
        let t = channels.remove(k);
        if has_key(t, id) {
            let j = key_slot(t, id);
            if j < k {
                assert(t[j] == channels[j]);
            } else {
                assert(t[j] == channels[j + 1]);
            }
        }
    }
    if has_key(names, name) {
        let k = key_slot(names, name);
        let t = names.remove(k);
        if has_key(t, name) {
            let j = key_slot(t, name);
            if j < k {
                assert(t[j] == names[j]);
            } else {
                assert(t[j] == names[j + 1]);
            }
        }
    }
}

/// Channel registry for managing telemetry channels.
pub struct ChannelRegistry {
    channels: Vec<(ChannelId, ChannelConfig)>,
    name_to_id: Vec<(String, ChannelId)>,
}

impl ChannelRegistry {
    /// The configurations by identifier, in the order the identifiers were
    /// first registered.
    pub closed spec fn channels(&self) -> Seq<(ChannelId, ChannelConfig)> {
        self.channels@
    }

    /// The identifiers by name, in the order the names were first given.
    pub closed spec fn names(&self) -> Seq<(Seq<char>, ChannelId)> {
        name_views(self.name_to_id@)
    }

    /// No identifier and no name occurs twice.
    pub closed spec fn well_formed(&self) -> bool {
        keys_distinct(self.channels@) && keys_distinct(self.names())
    }

    /// A registry with no channels.
    pub fn new() -> (r: ChannelRegistry)
        ensures
            r.well_formed(),
            r.channels() == Seq::<(ChannelId, ChannelConfig)>::empty(),
            r.names() == Seq::<(Seq<char>, ChannelId)>::empty(),
    {
        let r = ChannelRegistry { channels: Vec::new(), name_to_id: Vec::new() };
        assert(r.names() =~= Seq::<(Seq<char>, ChannelId)>::empty());
        r
    }

    fn channel_position(&self, id: ChannelId) -> (r: Option<usize>)
        requires
            self.well_formed(),
        ensures
            match r {
                Some(i) => i < self.channels@.len() && self.channels@[i as int].0 == id && key_slot(
                    self.channels@,
                    id,
                ) == i && has_key(self.channels@, id),
                None => !has_key(self.channels@, id),
            },
    {
        let mut i: usize = 0;
        while i < self.channels.len()
            invariant
                i <= self.channels@.len(),
                keys_distinct(self.channels@),
                forall|j: int| 0 <= j < i ==> (#[trigger] self.channels@[j]).0 != id,
            decreases self.channels@.len() - i,
        {
            if self.channels[i].0.0 == id.0 {
                proof {
                    lemma_key_slot(self.channels@, i as int);
                }
                return Some(i);
            }
            i = i + 1;
        }
        None
    }

    fn name_position(&self, name: &str) -> (r: Option<usize>)
        requires
            self.well_formed(),
        ensures
            match r {
                Some(i) => i < self.name_to_id@.len() && self.names()[i as int].0 == name@ && key_slot(
                    self.names(),
                    name@,
                ) == i && has_key(self.names(), name@),
                None => !has_key(self.names(), name@),
            },
    {
        let ghost names = self.names();
        let mut i: usize = 0;
        while i < self.name_to_id.len()
            invariant
                names == name_views(self.name_to_id@),
                i <= self.name_to_id@.len(),
                keys_distinct(names),
                forall|j: int| 0 <= j < i ==> (#[trigger] names[j]).0 != name@,
            decreases self.name_to_id@.len() - i,
        {
            if str_eq(self.name_to_id[i].0.as_str(), name) {
                proof {
                    lemma_key_slot(names, i as int);
                }
                return Some(i);
            }
            i = i + 1;
        }
        None
    }

    /// Register a channel. A name that is taken is refused; otherwise the
    /// configuration is kept for its identifier, replacing the one kept
    /// before, and the name leads to the identifier.
    pub fn register(&mut self, config: ChannelConfig) -> (r: Result<(), TelemetryError>)
        requires
            old(self).well_formed(),
        ensures
            final(self).well_formed(),
            match r {
                Ok(()) => {
                    &&& !has_key(old(self).names(), config.name@)
                    &&& final(self).channels() == upsert_entry(old(self).channels(), config.id, config)
                    &&& final(self).names() == old(self).names().push((config.name@, config.id))
                },
                Err(e) => {
                    &&& has_key(old(self).names(), config.name@)
                    &&& e matches TelemetryError::ConfigError { message } && message@ == name_taken(
                        config.name@,
                    )
                    &&& final(self).channels() == old(self).channels()
                    &&& final(self).names() == old(self).names()
                },
            },
    {
        let id = config.id;
        if let Some(_) = self.name_position(config.name.as_str()) {
            let mut message = String::new();
            push_str(&mut message, "Channel name '");
            push_str(&mut message, config.name.as_str());
            push_str(&mut message, "' already exists");
            return Err(TelemetryError::ConfigError { message });
        }
        let name = config.name.clone();
        let ghost before = self.name_to_id@;
        match self.channel_position(id) {
            Some(i) => {
                self.channels.set(i, (id, config));
            },
            None => {
                self.channels.push((id, config));
            },
        }
        self.name_to_id.push((name, id));
        assert(name_views(self.name_to_id@) =~= name_views(before).push((name@, id)));
        Ok(())
    }

    /// The configuration kept for `id`.
    pub fn get(&self, id: ChannelId) -> (r: Option<&ChannelConfig>)
        requires
            self.well_formed(),
        ensures
            found(r) == config_for(self.channels(), id),
    {
        match self.channel_position(id) {
            Some(i) => Some(&self.channels[i].1),
            None => None,
        }
    }

    /// The configuration kept for the identifier that `name` leads to.
    pub fn get_by_name(&self, name: &str) -> (r: Option<&ChannelConfig>)
        requires
            self.well_formed(),
        ensures
            found(r) == match id_for(self.names(), name@) {
                Some(id) => config_for(self.channels(), id),
                None => None,
            },
    {
        match self.name_position(name) {
            Some(i) => {
                let id = self.name_to_id[i].1;
                assert(self.names()[i as int].1 == id);
                self.get(id)
            },
            None => None,
        }
    }

    /// The identifiers of the registered channels.
    pub fn get_all_ids(&self) -> (r: Vec<ChannelId>)
        ensures
            r@ == self.channels().map_values(|e: (ChannelId, ChannelConfig)| e.0),
    {
        let mut r: Vec<ChannelId> = Vec::new();
        let mut i: usize = 0;
        while i < self.channels.len()
            invariant
                i <= self.channels@.len(),
                r@ == self.channels@.take(i as int).map_values(|e: (ChannelId, ChannelConfig)| e.0),
            decreases self.channels@.len() - i,
        {
            r.push(self.channels[i].0);
            i = i + 1;
            assert(r@ =~= self.channels@.take(i as int).map_values(|e: (ChannelId, ChannelConfig)| e.0));
        }
        assert(self.channels@.take(i as int) =~= self.channels@);
        r
    }

    /// The configurations of the registered channels.
    pub fn get_all(&self) -> (r: Vec<&ChannelConfig>)
        ensures
            r@.len() == self.channels().len(),
            forall|i: int| 0 <= i < r@.len() ==> *(#[trigger] r@[i]) == self.channels()[i].1,
    {
        let mut r: Vec<&ChannelConfig> = Vec::new();
        let mut i: usize = 0;
        while i < self.channels.len()
            invariant
                i <= self.channels@.len(),
                r@.len() == i,
                forall|j: int| 0 <= j < i ==> *(#[trigger] r@[j]) == self.channels@[j].1,
            decreases self.channels@.len() - i,
        {
            r.push(&self.channels[i].1);
            i = i + 1;
        }
        r
    }

    /// Remove the channel `id` and the name its configuration carries.
    pub fn remove(&mut self, id: ChannelId) -> (r: Result<(), TelemetryError>)
        requires
            old(self).well_formed(),
        ensures
            final(self).well_formed(),
            match r {
                Ok(()) => {
                    &&& has_key(old(self).channels(), id)
                    &&& final(self).channels() == without_key(old(self).channels(), id)
                    &&& final(self).names() == without_key(
                        old(self).names(),
                        config_for(old(self).channels(), id)->0.name@,
                    )
                },
                Err(e) => {
                    &&& !has_key(old(self).channels(), id)
                    &&& e == TelemetryError::ChannelNotFound { id }
                    &&& final(self).channels() == old(self).channels()
                    &&& final(self).names() == old(self).names()
                },
            },
    {
        match self.channel_position(id) {
            Some(i) => {
                let (_, config) = self.channels.remove(i);
                match self.name_position(config.name.as_str()) {
                    Some(k) => {
                        let ghost before = self.name_to_id@;
                        let _ = self.name_to_id.remove(k);
                        assert(name_views(self.name_to_id@) =~= name_views(before).remove(k as int));
                    },
                    None => {},
                }
                Ok(())
            },
            None => Err(TelemetryError::ChannelNotFound { id }),
        }
    }

    /// Replace the configuration of a registered channel; when its name
    /// changes, the old name no longer leads to it and the new one does.
    pub fn update(&mut self, config: ChannelConfig) -> (r: Result<(), TelemetryError>)
        requires
            old(self).well_formed(),
        ensures
            final(self).well_formed(),
            match r {
                Ok(()) => {
                    let old_name = config_for(old(self).channels(), config.id)->0.name@;
                    &&& has_key(old(self).channels(), config.id)
                    &&& final(self).channels() == upsert_entry(old(self).channels(), config.id, config)
                    &&& final(self).names() == if old_name == config.name@ {
                        old(self).names()
                    } else {
                        upsert_entry(without_key(old(self).names(), old_name), config.name@, config.id)
                    }
                },
                Err(e) => {
                    &&& !has_key(old(self).channels(), config.id)
                    &&& e == TelemetryError::ChannelNotFound { id: config.id }
                    &&& final(self).channels() == old(self).channels()
                    &&& final(self).names() == old(self).names()
                },
            },
    {
        let id = config.id;
        match self.channel_position(id) {
            Some(i) => {
                let renamed = !str_eq(self.channels[i].1.name.as_str(), config.name.as_str());
                if renamed {
                    let old_name = self.channels[i].1.name.clone();
                    match self.name_position(old_name.as_str()) {
                        Some(k) => {
                            let ghost before = self.name_to_id@;
                            let _ = self.name_to_id.remove(k);
                            assert(name_views(self.name_to_id@) =~= name_views(before).remove(k as int));
                        },
                        None => {},
                    }
                    let ghost before = self.name_to_id@;
                    match self.name_position(config.name.as_str()) {
                        Some(k) => {
                            self.name_to_id.set(k, (config.name.clone(), id));
                            assert(name_views(self.name_to_id@) =~= name_views(before).update(
                                k as int,
                                (config.name@, id),
                            ));
                        },
                        None => {
                            self.name_to_id.push((config.name.clone(), id));
                            assert(name_views(self.name_to_id@) =~= name_views(before).push((config.name@, id)));
                        },
                    }
                }
                self.channels.set(i, (id, config));
                Ok(())
            },
            None => Err(TelemetryError::ChannelNotFound { id }),
        }
    }

    /// How many channels are registered.
    pub fn len(&self) -> (n: usize)
        ensures
            n == self.channels().len(),
    {
        self.channels.len()
    }

    /// Whether no channel is registered.
    pub fn is_empty(&self) -> (b: bool)
        ensures
            b == (self.channels().len() == 0),
    {
        self.channels.len() == 0
    }
}

impl Default for ChannelRegistry {
    /// A registry with no channels.
    fn default() -> (r: ChannelRegistry)
        ensures
            r.well_formed(),
            r.channels() == Seq::<(ChannelId, ChannelConfig)>::empty(),
            r.names() == Seq::<(Seq<char>, ChannelId)>::empty(),
    {
        ChannelRegistry::new()
    }
}

/// What the bytes of a channel say, before they become an `f64`.
#[derive(Debug, Clone, Copy, PartialEq, Eq, Structural)]
pub enum ChannelReading {
    /// The bits of an `f32`.
    Float32(u32),
    /// The bits of an `f64`.
    Float64(u64),
    /// A signed integer, sign-extended.
    Signed(i64),
    /// An unsigned integer.
    Unsigned(u64),
    /// A boolean: whether the byte is not zero.
    Flag(bool),
}

/// Bytes a value of type `t` occupies.
pub open spec fn data_width(t: DataType) -> nat {
    match t {
        DataType::Boolean => 1,
        DataType::Int16 | DataType::UInt16 => 2,
        DataType::Float32 | DataType::Int32 | DataType::UInt32 => 4,
        DataType::Float64 => 8,
    }
}

/// What the first bytes of `bytes` say as a value of type `t`, least
/// significant byte first.
pub open spec fn reading_of(t: DataType, bytes: Seq<u8>) -> ChannelReading {
    let w = word(bytes, 0, data_width(t), ByteOrder::LittleEndian);
    match t {
        DataType::Float32 => ChannelReading::Float32(w as u32),
        DataType::Float64 => ChannelReading::Float64(w as u64),
        DataType::Int16 => ChannelReading::Signed(((w as u16) as i16) as i64),
        DataType::Int32 => ChannelReading::Signed(((w as u32) as i32) as i64),
        DataType::UInt16 => ChannelReading::Unsigned(w as u64),
        DataType::UInt32 => ChannelReading::Unsigned(w as u64),
        DataType::Boolean => ChannelReading::Flag(bytes[0] != 0),
    }
}

/// Channel data processor: reads values as the registry describes their
/// channels.
pub struct ChannelProcessor {
    registry: Arc<ChannelRegistry>,
}

impl ChannelProcessor {
    /// The registry the processor reads channels from.
    pub closed spec fn registry(&self) -> ChannelRegistry {
        *self.registry
    }

    /// The registry is well formed.
    pub closed spec fn well_formed(&self) -> bool {
        self.registry.well_formed()
    }

    /// A processor for the channels of `registry`.
    pub fn new(registry: Arc<ChannelRegistry>) -> (p: ChannelProcessor)
        requires
            registry.well_formed(),
        ensures
            p.well_formed(),
            p.registry() == *registry,
    {
        ChannelProcessor { registry }
    }

    /// The value `bytes` hold for channel `channel_id`, read from their
    /// start as the channel's data type, least significant byte first.
    pub fn parse_value(&self, channel_id: ChannelId, bytes: &[u8]) -> (r: Result<ChannelReading, TelemetryError>)
        requires
            self.well_formed(),
        ensures
            match config_for(self.registry().channels(), channel_id) {
                None => r == Err::<ChannelReading, TelemetryError>(TelemetryError::ChannelNotFound { id: channel_id }),
                Some(c) => if bytes@.len() < data_width(c.data_type) {
                    r matches Err(e) && e matches TelemetryError::Io { message } && message@ == eof_text()
                } else {
                    r == Ok::<ChannelReading, TelemetryError>(reading_of(c.data_type, bytes@))
                },
            },
    {
        let config = match self.registry.get(channel_id) {
            Some(c) => c,
            None => return Err(TelemetryError::ChannelNotFound { id: channel_id }),
        };
        let n: usize = match config.data_type {
            DataType::Boolean => 1,
            DataType::Int16 | DataType::UInt16 => 2,
            DataType::Float32 | DataType::Int32 | DataType::UInt32 => 4,
            DataType::Float64 => 8,
        };
        if bytes.len() < n {
            return Err(eof_error());
        }
        let w = read_word(bytes, 0, n, ByteOrder::LittleEndian);
        let reading = match config.data_type {
            DataType::Float32 => ChannelReading::Float32(w as u32),
            DataType::Float64 => ChannelReading::Float64(w),
            DataType::Int16 => ChannelReading::Signed(((w as u16) as i16) as i64),
            DataType::Int32 => ChannelReading::Signed(((w as u32) as i32) as i64),
            DataType::UInt16 => ChannelReading::Unsigned(w),
            DataType::UInt32 => ChannelReading::Unsigned(w),
            DataType::Boolean => ChannelReading::Flag(bytes[0] != 0),
        };
        Ok(reading)
    }
}

} // verus!
