use vstd::prelude::*;
use std::collections::VecDeque;
use vstd::utf8::encode_utf8;
use crate::error::{AssetError, ErrorKind, Result};
use crate::handle::{AssetId, Revision};
use crate::path::{
    AssetAddress, AddressView, display_spec, parse_spec, scheme_sep, valid_namespace, split_source,
    split_label, normalize_spec,
};
use crate::cache::{Output, Manifest, blake3_hex, blake3_hex_of, valid_digest};
use crate::codec::MAX_ARTIFACT_BYTES;
use crate::text::{chars_of, string_of, str_equal, split, split_chars, pieces, has_char, text_less, text_lt};

verus! {

/// The most events the queue holds; the oldest make way for new ones.
pub const MAX_EVENTS: usize = 1024;

/// The deepest chain of dependencies a load follows.
pub const MAX_DEPENDENCY_DEPTH: usize = 128;

/// What a load reports once it settles.
#[derive(Debug)]
pub enum AssetEvent {
    Ready { id: AssetId, address: AssetAddress, revision: Revision },
    Failed { id: AssetId, address: AssetAddress, error: AssetError },
}

// ---------------------------------------------------------------------------
// The event queue.

/// The events not yet drained, oldest first, at most `MAX_EVENTS` of them.
#[derive(Debug)]
pub struct EventQueue {
    events: VecDeque<AssetEvent>,
}

impl View for EventQueue {
    type V = Seq<AssetEvent>;

    closed spec fn view(&self) -> Seq<AssetEvent> {
        self.events@
    }
}

impl EventQueue {
    #[verifier::type_invariant]
    spec fn bounded(self) -> bool {
        self.events@.len() <= MAX_EVENTS
    }

    pub fn new() -> (q: EventQueue)
        ensures
            q@.len() == 0,
    {
        EventQueue { events: VecDeque::new() }
    }

    /// Adds an event; when the queue is full the oldest event is dropped.
    pub fn push(&mut self, event: AssetEvent)
        ensures
            final(self)@ == if old(self)@.len() == MAX_EVENTS {
                old(self)@.skip(1).push(event)
            } else {
                old(self)@.push(event)
            },
            final(self)@.len() <= MAX_EVENTS,
    {
        proof {
            use_type_invariant(&*self);
        }
        let mut events: VecDeque<AssetEvent> = VecDeque::new();
        std::mem::swap(&mut events, &mut self.events);
        if events.len() == MAX_EVENTS {
            let _ = events.pop_front();
            assert(events@ =~= old(self)@.skip(1));
        }
        events.push_back(event);
        self.events = events;
    }

    /// Takes every event, oldest first, leaving the queue empty.
    pub fn drain(&mut self) -> (events: Vec<AssetEvent>)
        ensures
            events@ == old(self)@,
            final(self)@.len() == 0,
    {
        let mut queued: VecDeque<AssetEvent> = VecDeque::new();
        std::mem::swap(&mut queued, &mut self.events);
        let ghost all = queued@;
        let mut taken: Vec<AssetEvent> = Vec::new();
        while queued.len() > 0
            invariant
                taken@ + queued@ =~= all,
            decreases queued@.len(),
        {
            match queued.pop_front() {
                Some(e) => {
                    taken.push(e);
                },
                None => {},
            }
        }
        assert(taken@ =~= all);
        taken
    }

    pub fn len(&self) -> (n: usize)
        ensures
            n == self@.len(),
            n <= MAX_EVENTS,
    {
        proof {
            use_type_invariant(self);
        }
        self.events.len()
    }
}

/// The queue never holds more than `MAX_EVENTS` events, and the event pushed
/// last is always the newest one held.
pub proof fn lemma_queue_keeps_newest(q: Seq<AssetEvent>, e: AssetEvent)
    requires
        q.len() <= MAX_EVENTS,
    ensures
        ({
            let next = if q.len() == MAX_EVENTS {
                q.skip(1).push(e)
            } else {
                q.push(e)
            };
            &&& next.len() <= MAX_EVENTS
            &&& next.last() == e
            &&& next.len() == if q.len() == MAX_EVENTS {
                q.len() as int
            } else {
                q.len() + 1 as int
            }
        }),
{
}

// ---------------------------------------------------------------------------
// Dependency resolution.

/// A request: an address and the type it is loaded as.
pub type RequestKey = (AssetAddress, String);

/// The request for `address` as `type_key` is on the stack of loads under way.
pub open spec fn on_stack(stack: Seq<RequestKey>, address: AddressView, type_key: Seq<char>) -> bool {
    exists|i: int| 0 <= i < stack.len() && stack[i].0@ == address && (#[trigger] stack[i]).1@ == type_key
}

pub open spec fn arrow() -> Seq<char> {
    seq![' ', '-', '>', ' ']
}

/// The pieces joined with `sep` between them.
pub open spec fn join_with(parts: Seq<Seq<char>>, sep: Seq<char>) -> Seq<char>
    decreases parts.len(),
{
    if parts.len() == 0 {
        Seq::empty()
    } else if parts.len() == 1 {
        parts[0]
    } else {
        join_with(parts.drop_last(), sep) + sep + parts.last()
    }
}

/// The loads under way, then `last`, as text joined with ` -> `.
pub open spec fn cycle_text(stack: Seq<RequestKey>, last: AddressView) -> Seq<char> {
    join_with(
        Seq::new(stack.len(), |i: int| display_spec(stack[i].0@)).push(display_spec(last)),
        arrow(),
    )
}

fn same_key(k: &RequestKey, address: &AssetAddress, type_key: &str) -> (b: bool)
    ensures
        b == (k.0@ == address@ && k.1@ == type_key@),
{
    k.0.same(address) && str_equal(k.1.as_str(), type_key)
}

fn append_string(out: &mut String, s: &String)
    ensures
        final(out)@ == old(out)@ + s@,
{
    out.append(s.as_str());
}

/// The text of a dependency cycle: each load under way, then the address that
/// closed the cycle.
pub fn cycle_message(stack: &Vec<RequestKey>, address: &AssetAddress) -> (s: String)
    ensures
        s@ == cycle_text(stack@, address@),
{
    let ghost parts = Seq::new(stack@.len(), |i: int| display_spec(stack@[i].0@));
    let mut out = String::new();
    let mut i: usize = 0;
    while i < stack.len()
        invariant
            i <= stack@.len(),
            parts == Seq::new(stack@.len(), |i: int| display_spec(stack@[i].0@)),
            out@ == join_with(parts.take(i as int), arrow()),
        decreases stack.len() - i,
    {
        let ghost before = out@;
        if i > 0 {
            out.append(" -> ");
            proof {
                reveal_strlit(" -> ");
            }
        }
        let text = stack[i].0.describe();
        append_string(&mut out, &text);
        proof {
            assert(parts.take(i + 1).drop_last() =~= parts.take(i as int));
            if i == 0 {
                assert(parts.take(1) =~= seq![parts[0]]);
                assert(out@ =~= parts[0]);
            } else {
                assert(" -> "@ =~= arrow());
                assert(out@ =~= before + arrow() + parts[i as int]);
            }
        }
        i = i + 1;
    }
    let ghost before = out@;
    if stack.len() > 0 {
        out.append(" -> ");
        proof {
            reveal_strlit(" -> ");
            assert(" -> "@ =~= arrow());
        }
    }
    let text = address.describe();
    append_string(&mut out, &text);
    proof {
        let all = parts.push(display_spec(address@));
        assert(parts.take(stack@.len() as int) =~= parts);
        assert(all.drop_last() =~= parts);
        if stack@.len() == 0 {
            assert(all =~= seq![display_spec(address@)]);
        }
    }
    out
}

/// Refuses a load that would close a dependency cycle or go deeper than
/// `MAX_DEPENDENCY_DEPTH`; a cycle is reported with its whole chain.
pub fn check_resolve(stack: &Vec<RequestKey>, address: &AssetAddress, type_key: &str) -> (res:
    Result<()>)
    ensures
        res is Ok <==> !on_stack(stack@, address@, type_key@) && stack@.len()
            < MAX_DEPENDENCY_DEPTH,
        res matches Err(e) ==> e.kind == ErrorKind::DependencyCycle,
        on_stack(stack@, address@, type_key@) ==> (res matches Err(e) && e.message@ == cycle_text(
            stack@,
            address@,
        )),
{
    let mut i: usize = 0;
    while i < stack.len()
        invariant
            i <= stack@.len(),
            forall|j: int|
                0 <= j < i ==> !((#[trigger] stack@[j]).0@ == address@ && stack@[j].1@
                    == type_key@),
        decreases stack.len() - i,
    {
        if same_key(&stack[i], address, type_key) {
            let text = cycle_message(stack, address);
            return Err(AssetError::new(ErrorKind::DependencyCycle, text.as_str()));
        }
        i = i + 1;
    }
    if stack.len() >= MAX_DEPENDENCY_DEPTH {
        return Err(
            AssetError::new(ErrorKind::DependencyCycle, "asset dependency depth exceeds 128"),
        );
    }
    Ok(())
}

/// The label an address reads among its bundle's outputs; the root's is empty.
pub open spec fn output_label(a: AddressView) -> Seq<char> {
    match a.label {
        Some(l) => l,
        None => Seq::empty(),
    }
}

/// The first output recorded under `label`.
pub open spec fn first_output(outputs: Seq<(String, Output)>, label: Seq<char>, i: int) -> bool {
    0 <= i < outputs.len() && outputs[i].0@ == label && forall|j: int|
        0 <= j < i ==> (#[trigger] outputs[j]).0@ != label
}

/// Finds the output an address names in its bundle, as the expected type.
pub fn select_output(outputs: &Vec<(String, Output)>, address: &AssetAddress, type_key: &str) -> (res:
    Result<usize>)
    ensures
        match res {
            Ok(i) => first_output(outputs@, output_label(address@), i as int)
                && outputs@[i as int].1.type_key@ == type_key@,
            Err(e) => (e.kind == ErrorKind::MissingAsset && forall|j: int|
                0 <= j < outputs@.len() ==> (#[trigger] outputs@[j]).0@ != output_label(address@))
                || (e.kind == ErrorKind::TypeMismatch && exists|i: int|
                first_output(outputs@, output_label(address@), i) && (#[trigger] outputs@[i]).1.type_key@
                    != type_key@),
        },
{
    let label = match address.label() {
        Some(l) => l,
        None => "",
    };
    proof {
        reveal_strlit("");
        assert(label@ == output_label(address@));
    }
    let mut i: usize = 0;
    while i < outputs.len()
        invariant
            i <= outputs@.len(),
            label@ == output_label(address@),
            forall|j: int| 0 <= j < i ==> (#[trigger] outputs@[j]).0@ != label@,
        decreases outputs.len() - i,
    {
        if str_equal(outputs[i].0.as_str(), label) {
            if !str_equal(outputs[i].1.type_key.as_str(), type_key) {
                let mut message = address.describe();
                message.append(": expected ");
                message.append(type_key);
                message.append(", found ");
                message.append(outputs[i].1.type_key.as_str());
                proof {
                    assert(first_output(outputs@, output_label(address@), i as int));
                }
                return Err(AssetError::new(ErrorKind::TypeMismatch, message.as_str()));
            }
            return Ok(i);
        }
        i = i + 1;
    }
    let mut message = "asset output not found: ".to_owned();
    let text = address.describe();
    append_string(&mut message, &text);
    Err(AssetError::new(ErrorKind::MissingAsset, message.as_str()))
}

/// The bytes of each stamp in turn.
pub open spec fn stamps_bytes(stamps: Seq<String>) -> Seq<u8>
    decreases stamps.len(),
{
    if stamps.len() == 0 {
        Seq::empty()
    } else {
        stamps_bytes(stamps.drop_last()) + encode_utf8(stamps.last()@)
    }
}

fn append_bytes(out: &mut Vec<u8>, bytes: &[u8])
    ensures
        final(out)@ == old(out)@ + bytes@,
{
    let mut i: usize = 0;
    while i < bytes.len()
        invariant
            i <= bytes@.len(),
            out@ == old(out)@ + bytes@.take(i as int),
        decreases bytes.len() - i,
    {
        out.push(bytes[i]);
        assert(bytes@.take(i + 1) =~= bytes@.take(i as int).push(bytes@[i as int]));
        i = i + 1;
    }
    assert(bytes@.take(bytes@.len() as int) =~= bytes@);
}

/// The stamp of a decoded output: the digest of its type key, its payload and
/// the stamps of its dependencies, in order. Equal inputs give equal stamps,
/// so an unchanged output keeps its revision.
pub fn output_stamp(type_key: &str, payload: &[u8], dependency_stamps: &Vec<String>) -> (s: String)
    ensures
        s@ == blake3_hex(encode_utf8(type_key@) + payload@ + stamps_bytes(dependency_stamps@)),
        valid_digest(s@),
{
    let mut input: Vec<u8> = Vec::new();
    append_bytes(&mut input, type_key.as_bytes());
    append_bytes(&mut input, payload);
    let mut i: usize = 0;
    while i < dependency_stamps.len()
        invariant
            i <= dependency_stamps@.len(),
            input@ == encode_utf8(type_key@) + payload@ + stamps_bytes(
                dependency_stamps@.take(i as int),
            ),
        decreases dependency_stamps.len() - i,
    {
        let ghost before = input@;
        append_bytes(&mut input, dependency_stamps[i].as_str().as_bytes());
        proof {
            let t = dependency_stamps@.take(i + 1);
            assert(t.drop_last() =~= dependency_stamps@.take(i as int));
            assert(input@ =~= before + encode_utf8(t.last()@));
        }
        i = i + 1;
    }
    proof {
        assert(dependency_stamps@.take(dependency_stamps@.len() as int) =~= dependency_stamps@);
    }
    blake3_hex_of(input.as_slice())
}

/// The variant of an address loaded with explicit settings: the digest of
/// the importer's key and the settings bytes.
pub fn variant_digest(importer: &str, settings: &[u8]) -> (s: String)
    ensures
        s@ == blake3_hex(encode_utf8(importer@) + settings@),
        valid_digest(s@),
        crate::path::valid_variant(s@),
{
    let mut input: Vec<u8> = Vec::new();
    append_bytes(&mut input, importer.as_bytes());
    append_bytes(&mut input, settings);
    blake3_hex_of(input.as_slice())
}

// ---------------------------------------------------------------------------
// Registration.

/// A registered asset type: its key, the identity of its Rust type, its
/// schema version and the key of its codec.
#[derive(Debug)]
pub struct TypeInfo {
    pub key: String,
    pub type_token: u64,
    pub schema: u32,
    pub codec: String,
}

/// A registered importer: its key, the extensions it claims, and the type key
/// of what it produces.
#[derive(Debug)]
pub struct ImporterInfo {
    pub key: String,
    pub version: u32,
    pub extensions: Vec<String>,
    pub output: String,
}

/// What a server is built from: registered types, importers and source
/// namespaces, the cache settings, and the first registration error.
#[derive(Debug)]
pub struct Registry {
    pub types: Vec<TypeInfo>,
    pub importers: Vec<ImporterInfo>,
    pub sources: Vec<String>,
    pub cache: bool,
    pub packaged: bool,
    pub target: String,
    pub error: Option<AssetError>,
}

pub open spec fn has_source(sources: Seq<String>, name: Seq<char>) -> bool {
    exists|i: int| 0 <= i < sources.len() && (#[trigger] sources[i])@ == name
}

pub open spec fn has_type_key(types: Seq<TypeInfo>, key: Seq<char>) -> bool {
    exists|i: int| 0 <= i < types.len() && (#[trigger] types[i]).key@ == key
}

pub open spec fn has_type_token(types: Seq<TypeInfo>, token: u64) -> bool {
    exists|i: int| 0 <= i < types.len() && (#[trigger] types[i]).type_token == token
}

pub open spec fn has_importer(importers: Seq<ImporterInfo>, key: Seq<char>) -> bool {
    exists|i: int| 0 <= i < importers.len() && (#[trigger] importers[i]).key@ == key
}

pub open spec fn claims_extension(importer: ImporterInfo, ext: Seq<char>) -> bool {
    exists|k: int| 0 <= k < importer.extensions@.len() && (#[trigger] importer.extensions@[k])@ == ext
}

pub open spec fn extension_claimed(importers: Seq<ImporterInfo>, ext: Seq<char>) -> bool {
    exists|i: int| 0 <= i < importers.len() && claims_extension(#[trigger] importers[i], ext)
}

/// An extension is usable: non-empty and without upper-case ASCII letters.
pub open spec fn extension_ok(ext: Seq<char>) -> bool {
    ext.len() > 0 && forall|i: int| 0 <= i < ext.len() ==> !('A' <= #[trigger] ext[i] <= 'Z')
}

/// The text `name://validation`, which a source name must let parse.
pub open spec fn mount_probe(name: Seq<char>) -> Seq<char> {
    name + scheme_sep() + seq!['v', 'a', 'l', 'i', 'd', 'a', 't', 'i', 'o', 'n']
}

fn registration_error(prefix: &str, name: &str) -> (e: AssetError)
    ensures
        e.kind == ErrorKind::Registration,
        e.message@ == prefix@ + name@,
        e.cause is None,
{
    let mut message = prefix.to_owned();
    message.append(name);
    AssetError::new(ErrorKind::Registration, message.as_str())
}

fn find_source(sources: &Vec<String>, name: &str) -> (r: Option<usize>)
    ensures
        match r {
            Some(i) => i < sources@.len() && sources@[i as int]@ == name@,
            None => !has_source(sources@, name@),
        },
{
    let mut i: usize = 0;
    while i < sources.len()
        invariant
            i <= sources@.len(),
            forall|j: int| 0 <= j < i ==> (#[trigger] sources@[j])@ != name@,
        decreases sources.len() - i,
    {
        if str_equal(sources[i].as_str(), name) {
            return Some(i);
        }
        i = i + 1;
    }
    None
}

fn extension_ok_exec(ext: &str) -> (b: bool)
    ensures
        b == extension_ok(ext@),
{
    let v = chars_of(ext);
    if v.len() == 0 {
        return false;
    }
    let mut i: usize = 0;
    while i < v.len()
        invariant
            i <= v@.len(),
            v@ == ext@,
            forall|j: int| 0 <= j < i ==> !('A' <= #[trigger] v@[j] <= 'Z'),
        decreases v.len() - i,
    {
        if 'A' <= v[i] && v[i] <= 'Z' {
            return false;
        }
        i = i + 1;
    }
    true
}

fn claimed_by(importers: &Vec<ImporterInfo>, ext: &str) -> (b: bool)
    ensures
        b == extension_claimed(importers@, ext@),
{
    let mut i: usize = 0;
    while i < importers.len()
        invariant
            i <= importers@.len(),
            forall|j: int| 0 <= j < i ==> !claims_extension(#[trigger] importers@[j], ext@),
        decreases importers.len() - i,
    {
        let exts = &importers[i].extensions;
        let mut k: usize = 0;
        while k < exts.len()
            invariant
                i < importers@.len(),
                k <= exts@.len(),
                exts@ == importers@[i as int].extensions@,
                forall|m: int| 0 <= m < k ==> (#[trigger] exts@[m])@ != ext@,
            decreases exts.len() - k,
        {
            if str_equal(exts[k].as_str(), ext) {
                assert(claims_extension(importers@[i as int], ext@));
                return true;
            }
            k = k + 1;
        }
        i = i + 1;
    }
    false
}

impl Registry {
    /// A registry with nothing registered, for the `desktop` target.
    pub fn new() -> (r: Registry)
        ensures
            r.types@.len() == 0,
            r.importers@.len() == 0,
            r.sources@.len() == 0,
            !r.cache,
            !r.packaged,
            r.target@ == seq!['d', 'e', 's', 'k', 't', 'o', 'p'],
            r.error is None,
    {
        let target = "desktop".to_owned();
        proof {
            reveal_strlit("desktop");
        }
        Registry {
            types: Vec::new(),
            importers: Vec::new(),
            sources: Vec::new(),
            cache: false,
            packaged: false,
            target,
            error: None,
        }
    }

    /// Mounts a source namespace. A name that cannot head an address is
    /// refused; a name mounted twice is recorded as an error.
    pub fn mount(&mut self, name: &str)
        ensures
            final(self).types@ == old(self).types@,
            final(self).importers@ == old(self).importers@,
            parse_spec(mount_probe(name@)) is None ==> final(self).sources@ == old(self).sources@,
            parse_spec(mount_probe(name@)) is Some && !has_source(old(self).sources@, name@)
                ==> final(self).sources@.len() == old(self).sources@.len() + 1
                && final(self).sources@.last()@ == name@ && final(self).sources@.drop_last()
                == old(self).sources@,
            parse_spec(mount_probe(name@)) is Some && has_source(old(self).sources@, name@)
                ==> final(self).sources@ == old(self).sources@,
            (parse_spec(mount_probe(name@)) is None || has_source(old(self).sources@, name@))
                ==> (final(self).error matches Some(e) && e.kind == ErrorKind::Registration),
            !(parse_spec(mount_probe(name@)) is None || has_source(old(self).sources@, name@))
                ==> final(self).error == old(self).error,
    {
        let mut probe = chars_of(name);
        probe.push(':');
        probe.push('/');
        probe.push('/');
        let word = chars_of("validation");
        proof {
            reveal_strlit("validation");
        }
        let mut k: usize = 0;
        let ghost start = probe@;
        while k < word.len()
            invariant
                k <= word@.len(),
                probe@ == start + word@.take(k as int),
            decreases word.len() - k,
        {
            probe.push(word[k]);
            assert(word@.take(k + 1) =~= word@.take(k as int).push(word@[k as int]));
            k = k + 1;
        }
        assert(probe@ =~= mount_probe(name@)) by {
            assert(word@.take(word@.len() as int) =~= word@);
        }
        let text = string_of(probe.as_slice());
        let valid = AssetAddress::parse(text.as_str()).is_ok();
        if !valid {
            self.error = Some(registration_error("invalid or duplicate source: ", name));
            return;
        }
        match find_source(&self.sources, name) {
            Some(_) => {
                self.error = Some(registration_error("invalid or duplicate source: ", name));
            },
            None => {
                self.sources.push(name.to_owned());
            },
        }
    }

    /// Registers an asset type under its key. An empty or taken key, or a
    /// Rust type registered before, is recorded as an error and changes
    /// nothing else.
    pub fn register_type(&mut self, info: TypeInfo)
        ensures
            final(self).importers@ == old(self).importers@,
            final(self).sources@ == old(self).sources@,
            ({
                let refused = info.key@.len() == 0 || has_type_key(old(self).types@, info.key@)
                    || has_type_token(old(self).types@, info.type_token);
                &&& refused ==> final(self).types@ == old(self).types@ && (final(self).error matches Some(e) && e.kind == ErrorKind::Registration)
                &&& !refused ==> final(self).types@ == old(self).types@.push(info) && final(self).error == old(self).error
            }),
    {
        let key = chars_of(info.key.as_str());
        let mut taken = key.len() == 0;
        let mut i: usize = 0;
        while i < self.types.len()
            invariant
                i <= self.types@.len(),
                key@ == info.key@,
                taken == (key@.len() == 0 || exists|j: int|
                    0 <= j < i && ((#[trigger] self.types@[j]).key@ == info.key@
                        || self.types@[j].type_token == info.type_token)),
            decreases self.types.len() - i,
        {
            if str_equal(self.types[i].key.as_str(), info.key.as_str()) || self.types[i].type_token
                == info.type_token {
                taken = true;
            }
            i = i + 1;
        }
        if taken {
            self.error = Some(
                registration_error("duplicate or invalid asset type: ", info.key.as_str()),
            );
            return;
        }
        self.types.push(info);
    }

    /// Registers an importer. An empty or taken key is recorded as an error
    /// and changes nothing else; an empty, upper-case or already claimed
    /// extension is recorded as an error, but the importer is still added.
    pub fn register_importer(&mut self, importer: ImporterInfo)
        ensures
            final(self).types@ == old(self).types@,
            final(self).sources@ == old(self).sources@,
            ({
                let refused = importer.key@.len() == 0 || has_importer(
                    old(self).importers@,
                    importer.key@,
                );
                let bad_extension = exists|k: int|
                    0 <= k < importer.extensions@.len() && (!extension_ok(
                        (#[trigger] importer.extensions@[k])@,
                    ) || extension_claimed(old(self).importers@, importer.extensions@[k]@));
                &&& refused ==> final(self).importers@ == old(self).importers@
                &&& !refused ==> final(self).importers@ == old(self).importers@.push(importer)
                &&& (refused || bad_extension) ==> (final(self).error matches Some(e) && e.kind
                    == ErrorKind::Registration)
                &&& !(refused || bad_extension) ==> final(self).error == old(self).error
            }),
    {
        let key = chars_of(importer.key.as_str());
        let mut taken = key.len() == 0;
        let mut i: usize = 0;
        while i < self.importers.len()
            invariant
                i <= self.importers@.len(),
                key@ == importer.key@,
                taken == (key@.len() == 0 || exists|j: int|
                    0 <= j < i && (#[trigger] self.importers@[j]).key@ == importer.key@),
            decreases self.importers.len() - i,
        {
            if str_equal(self.importers[i].key.as_str(), importer.key.as_str()) {
                taken = true;
            }
            i = i + 1;
        }
        if taken {
            self.error = Some(
                registration_error("duplicate or invalid importer: ", importer.key.as_str()),
            );
            return;
        }
        let mut k: usize = 0;
        let ghost error0 = self.error;
        while k < importer.extensions.len()
            invariant
                k <= importer.extensions@.len(),
                self.importers@ == old(self).importers@,
                self.types@ == old(self).types@,
                self.sources@ == old(self).sources@,
                error0 == old(self).error,
                (exists|m: int|
                    0 <= m < k && (!extension_ok((#[trigger] importer.extensions@[m])@)
                        || extension_claimed(old(self).importers@, importer.extensions@[m]@)))
                    ==> (self.error matches Some(e) && e.kind == ErrorKind::Registration),
                !(exists|m: int|
                    0 <= m < k && (!extension_ok((#[trigger] importer.extensions@[m])@)
                        || extension_claimed(old(self).importers@, importer.extensions@[m]@)))
                    ==> self.error == error0,
            decreases importer.extensions.len() - k,
        {
            let ext = importer.extensions[k].as_str();
            if !extension_ok_exec(ext) || claimed_by(&self.importers, ext) {
                self.error = Some(
                    registration_error("invalid or ambiguous importer extension: ", ext),
                );
            }
            k = k + 1;
        }
        self.importers.push(importer);
    }

    /// Checks that a server can be built: no registration error, a cache
    /// for packaged assets, and every importer's output type registered.
    /// Of several importers whose output is not registered, the one whose key
    /// comes first is reported.
    pub fn check_build(&self) -> (res: Result<()>)
        ensures
            res is Ok <==> self.error is None && (self.packaged ==> self.cache) && forall|i: int|
                0 <= i < self.importers@.len() ==> has_type_key(
                    self.types@,
                    (#[trigger] self.importers@[i]).output@,
                ),
            self.error matches Some(e) ==> res == Err::<(), AssetError>(e),
            res matches Err(e) ==> e.kind == match self.error {
                Some(f) => f.kind,
                None => ErrorKind::Registration,
            },
            self.error is None && (self.packaged ==> self.cache) && res is Err ==> exists|w: int|
                0 <= w < self.importers@.len() && !has_type_key(
                    self.types@,
                    (#[trigger] self.importers@[w]).output@,
                ) && (forall|j: int|
                    0 <= j < self.importers@.len() && !has_type_key(
                        self.types@,
                        (#[trigger] self.importers@[j]).output@,
                    ) ==> !text_lt(self.importers@[j].key@, self.importers@[w].key@))
                    && (res matches Err(e) && e.message@ == "unregistered importer output: "@
                    + self.importers@[w].output@),
    {
        if let Some(error) = &self.error {
            return Err(error.duplicate());
        }
        if self.packaged && !self.cache {
            return Err(
                AssetError::new(ErrorKind::Registration, "packaged assets require a cache directory"),
            );
        }
        let mut worst: Option<usize> = None;
        let mut i: usize = 0;
        while i < self.importers.len()
            invariant
                i <= self.importers@.len(),
                self.error is None,
                match worst {
                    None => forall|j: int|
                        0 <= j < i ==> has_type_key(self.types@, (#[trigger] self.importers@[j]).output@),
                    Some(w) => w < i && !has_type_key(self.types@, self.importers@[w as int].output@)
                        && forall|j: int|
                        0 <= j < i && !has_type_key(
                            self.types@,
                            (#[trigger] self.importers@[j]).output@,
                        ) ==> !text_lt(self.importers@[j].key@, self.importers@[w as int].key@),
                },
            decreases self.importers.len() - i,
        {
            if self.type_index(self.importers[i].output.as_str()).is_none() {
                let replace = match worst {
                    None => true,
                    Some(w) => text_less(self.importers[i].key.as_str(), self.importers[w].key.as_str()),
                };
                if replace {
                    proof {
                        if let Some(w) = worst {
                            assert forall|j: int|
                                0 <= j < i + 1 && !has_type_key(
                                    self.types@,
                                    (#[trigger] self.importers@[j]).output@,
                                ) implies !text_lt(self.importers@[j].key@, self.importers@[i as int].key@) by {
                                crate::text::lemma_text_lt_total(self.importers@[i as int].key@, self.importers@[w as int].key@);
                                if j < i && text_lt(self.importers@[j].key@, self.importers@[i as int].key@) {
                                    crate::text::lemma_text_lt_trans(
                                        self.importers@[j].key@,
                                        self.importers@[i as int].key@,
                                        self.importers@[w as int].key@,
                                    );
                                }
                                if j == i {
                                    crate::text::lemma_text_lt_total(self.importers@[j].key@, self.importers@[j].key@);
                                }
                            }
                        } else {
                            crate::text::lemma_text_lt_total(self.importers@[i as int].key@, self.importers@[i as int].key@);
                        }
                    }
                    worst = Some(i);
                }
            }
            i = i + 1;
        }
        match worst {
            None => Ok(()),
            Some(w) => Err(
                registration_error("unregistered importer output: ", self.importers[w].output.as_str()),
            ),
        }
    }

    /// The registered type with the given key.
    pub fn type_index(&self, key: &str) -> (r: Option<usize>)
        ensures
            match r {
                Some(i) => first_type(self.types@, key@, i as int),
                None => !has_type_key(self.types@, key@),
            },
    {
        let mut i: usize = 0;
        while i < self.types.len()
            invariant
                i <= self.types@.len(),
                forall|j: int| 0 <= j < i ==> (#[trigger] self.types@[j]).key@ != key@,
            decreases self.types.len() - i,
        {
            if str_equal(self.types[i].key.as_str(), key) {
                return Some(i);
            }
            i = i + 1;
        }
        None
    }

    /// The registered importer with the given key.
    pub fn importer_index(&self, key: &str) -> (r: Option<usize>)
        ensures
            match r {
                Some(i) => i < self.importers@.len() && self.importers@[i as int].key@ == key@,
                None => !has_importer(self.importers@, key@),
            },
    {
        let mut i: usize = 0;
        while i < self.importers.len()
            invariant
                i <= self.importers@.len(),
                forall|j: int| 0 <= j < i ==> (#[trigger] self.importers@[j]).key@ != key@,
            decreases self.importers.len() - i,
        {
            if str_equal(self.importers[i].key.as_str(), key) {
                return Some(i);
            }
            i = i + 1;
        }
        None
    }
}

// ---------------------------------------------------------------------------
// Importer selection.

/// The extension of the last component of a path: what follows its last
/// `.`, where that `.` is not the component's first character; else empty.
pub open spec fn path_extension(path: Seq<char>) -> Seq<char> {
    let name = split(path, '/').last();
    match last_dot(name, name.len() as int) {
        Some(i) => if i > 0 {
            name.skip(i + 1)
        } else {
            Seq::empty()
        },
        None => Seq::empty(),
    }
}

/// The position of the last `.` before `end`.
pub open spec fn last_dot(s: Seq<char>, end: int) -> Option<int>
    decreases end,
{
    if end <= 0 {
        None
    } else if s[end - 1] == '.' {
        Some(end - 1)
    } else {
        last_dot(s, end - 1)
    }
}

/// A character's code with ASCII upper case folded to lower case.
pub open spec fn folded(c: char) -> u32 {
    if 'A' <= c <= 'Z' {
        (c as u32 + 32) as u32
    } else {
        c as u32
    }
}

/// `a` in ASCII lower case is `b`.
pub open spec fn folds_to(a: Seq<char>, b: Seq<char>) -> bool {
    a.len() == b.len() && forall|i: int| 0 <= i < a.len() ==> folded(#[trigger] a[i]) == b[i] as u32
}

pub open spec fn importer_accepts(importer: ImporterInfo, ext: Seq<char>) -> bool {
    exists|k: int|
        0 <= k < importer.extensions@.len() && folds_to(ext, (#[trigger] importer.extensions@[k])@)
}

fn last_dot_exec(v: &Vec<char>) -> (r: Option<usize>)
    ensures
        match r {
            Some(i) => last_dot(v@, v@.len() as int) == Some(i as int) && i < v@.len(),
            None => last_dot(v@, v@.len() as int) is None,
        },
{
    let mut end = v.len();
    while end > 0
        invariant
            end <= v@.len(),
            last_dot(v@, v@.len() as int) == last_dot(v@, end as int),
        decreases end,
    {
        if v[end - 1] == '.' {
            return Some(end - 1);
        }
        end = end - 1;
    }
    None
}

/// The extension of an asset path's file name.
pub fn extension_of(path: &str) -> (ext: Vec<char>)
    ensures
        ext@ == path_extension(path@),
{
    let parts = split_chars(&chars_of(path), '/');
    proof {
        crate::text::lemma_split_len(path@, '/');
    }
    let name = &parts[parts.len() - 1];
    assert(name@ == split(path@, '/').last());
    match last_dot_exec(name) {
        Some(i) => {
            if i > 0 {
                crate::text::sub_chars(name, i + 1, name.len())
            } else {
                Vec::new()
            }
        },
        None => Vec::new(),
    }
}

fn folds_to_exec(a: &Vec<char>, b: &str) -> (r: bool)
    ensures
        r == folds_to(a@, b@),
{
    let w = chars_of(b);
    if a.len() != w.len() {
        return false;
    }
    let mut i: usize = 0;
    while i < a.len()
        invariant
            i <= a@.len(),
            a@.len() == w@.len(),
            w@ == b@,
            forall|j: int| 0 <= j < i ==> folded(#[trigger] a@[j]) == w@[j] as u32,
        decreases a.len() - i,
    {
        let c = a[i];
        let code: u32 = if 'A' <= c && c <= 'Z' {
            c as u32 + 32
        } else {
            c as u32
        };
        if code != w[i] as u32 {
            return false;
        }
        i = i + 1;
    }
    true
}

/// The first importer that claims the extension of `path`, compared in
/// ASCII lower case.
pub fn choose_importer(importers: &Vec<ImporterInfo>, path: &str) -> (r: Option<usize>)
    ensures
        match r {
            Some(i) => i < importers@.len() && importer_accepts(
                importers@[i as int],
                path_extension(path@),
            ) && forall|j: int|
                0 <= j < i ==> !importer_accepts(#[trigger] importers@[j], path_extension(path@)),
            None => forall|j: int|
                0 <= j < importers@.len() ==> !importer_accepts(
                    #[trigger] importers@[j],
                    path_extension(path@),
                ),
        },
{
    let ext = extension_of(path);
    let mut i: usize = 0;
    while i < importers.len()
        invariant
            i <= importers@.len(),
            ext@ == path_extension(path@),
            forall|j: int| 0 <= j < i ==> !importer_accepts(#[trigger] importers@[j], ext@),
        decreases importers.len() - i,
    {
        let exts = &importers[i].extensions;
        let mut k: usize = 0;
        while k < exts.len()
            invariant
                i < importers@.len(),
                k <= exts@.len(),
                exts@ == importers@[i as int].extensions@,
                ext@ == path_extension(path@),
                forall|j: int| 0 <= j < i ==> !importer_accepts(#[trigger] importers@[j], ext@),
                forall|m: int| 0 <= m < k ==> !folds_to(ext@, (#[trigger] exts@[m])@),
            decreases exts.len() - k,
        {
            if folds_to_exec(&ext, exts[k].as_str()) {
                assert(importer_accepts(importers@[i as int], ext@));
                return Some(i);
            }
            k = k + 1;
        }
        i = i + 1;
    }
    None
}

// ---------------------------------------------------------------------------
// Reading a cached bundle.

/// The outputs' recorded lengths, summed.
pub open spec fn total_length(outputs: Seq<(String, Output)>) -> nat
    decreases outputs.len(),
{
    if outputs.len() == 0 {
        0
    } else {
        total_length(outputs.drop_last()) + outputs.last().1.length as nat
    }
}

/// The first registered type with the given key is at `t`.
pub open spec fn first_type(types: Seq<TypeInfo>, key: Seq<char>, t: int) -> bool {
    0 <= t < types.len() && types[t].key@ == key && forall|j: int|
        0 <= j < t ==> (#[trigger] types[j]).key@ != key
}

/// Every output's type is registered with the schema and codec it was
/// cooked with.
pub open spec fn outputs_current(outputs: Seq<(String, Output)>, types: Seq<TypeInfo>) -> bool {
    forall|i: int| 0 <= i < outputs.len() ==> output_current(#[trigger] outputs[i].1, types)
}

/// An output's type is registered with the schema and codec it was cooked with.
pub open spec fn output_current(o: Output, types: Seq<TypeInfo>) -> bool {
    exists|t: int|
        first_type(types, o.type_key@, t) && types[t].schema == o.schema && types[t].codec@
            == o.codec@
}

/// Checks that a cached bundle's outputs are few enough and each within the
/// artifact limit, before their sizes are added up.
pub fn check_output_bounds(manifest: &Manifest) -> (res: Result<()>)
    ensures
        res is Ok <==> manifest.outputs@.len() <= crate::cache::MAX_MANIFEST_ENTRIES && forall|i: int|
            0 <= i < manifest.outputs@.len() ==> (#[trigger] manifest.outputs@[i]).1.length
                <= MAX_ARTIFACT_BYTES,
        res matches Err(e) ==> e.kind == ErrorKind::Cache && e.message@ == "invalid artifact metadata"@,
{
    proof {
        reveal_strlit("invalid artifact metadata");
    }
    if manifest.outputs.len() > crate::cache::MAX_MANIFEST_ENTRIES {
        return Err(AssetError::new(ErrorKind::Cache, "invalid artifact metadata"));
    }
    let mut i: usize = 0;
    while i < manifest.outputs.len()
        invariant
            i <= manifest.outputs@.len(),
            forall|j: int| 0 <= j < i ==> (#[trigger] manifest.outputs@[j]).1.length <= MAX_ARTIFACT_BYTES,
        decreases manifest.outputs.len() - i,
    {
        if manifest.outputs[i].1.length > MAX_ARTIFACT_BYTES {
            return Err(AssetError::new(ErrorKind::Cache, "invalid artifact metadata"));
        }
        i = i + 1;
    }
    Ok(())
}

/// A load may take a slot that is already published instead of decoding it
/// again: when it is not reloading and the slot's bundle was not imported by
/// this load.
pub fn ready_shortcut(reload: bool, bundle_imported: bool, slot_ready: bool) -> (b: bool)
    ensures
        b == (!reload && !bundle_imported && slot_ready),
{
    !reload && !bundle_imported && slot_ready
}

/// Checks that a cached bundle was cooked for the server's target: the first
/// check a cached bundle meets.
pub fn check_target(manifest: &Manifest, registry: &Registry) -> (res: Result<()>)
    ensures
        res is Ok <==> manifest.target@ == registry.target@,
        res matches Err(e) ==> e.kind == ErrorKind::Cache && e.message@ == "asset target profile changed"@,
{
    proof {
        reveal_strlit("asset target profile changed");
    }
    if !str_equal(manifest.target.as_str(), registry.target.as_str()) {
        return Err(AssetError::new(ErrorKind::Cache, "asset target profile changed"));
    }
    Ok(())
}

/// Checks that a cached bundle still fits the server: cooked for its target,
/// within the size limit, and with every output's type, schema and codec
/// still registered.
pub fn check_cached_outputs(manifest: &Manifest, registry: &Registry) -> (res: Result<()>)
    requires
        manifest.outputs@.len() <= crate::cache::MAX_MANIFEST_ENTRIES,
        forall|i: int|
            0 <= i < manifest.outputs@.len() ==> (#[trigger] manifest.outputs@[i]).1.length
                <= MAX_ARTIFACT_BYTES,
    ensures
        res is Ok <==> manifest.target@ == registry.target@ && total_length(manifest.outputs@)
            <= MAX_ARTIFACT_BYTES && outputs_current(manifest.outputs@, registry.types@),
{
    if !str_equal(manifest.target.as_str(), registry.target.as_str()) {
        return Err(AssetError::new(ErrorKind::Cache, "asset target profile changed"));
    }
    let mut total: u64 = 0;
    let mut i: usize = 0;
    assert(manifest.outputs@.take(0) =~= Seq::<(String, Output)>::empty());
    while i < manifest.outputs.len()
        invariant
            i <= manifest.outputs@.len() <= crate::cache::MAX_MANIFEST_ENTRIES,
            forall|j: int|
                0 <= j < manifest.outputs@.len() ==> (#[trigger] manifest.outputs@[j]).1.length
                    <= MAX_ARTIFACT_BYTES,
            total == total_length(manifest.outputs@.take(i as int)),
            total <= i * MAX_ARTIFACT_BYTES,
        decreases manifest.outputs.len() - i,
    {
        proof {
            assert(manifest.outputs@.take(i + 1).drop_last() =~= manifest.outputs@.take(i as int));
            assert((i + 1) * MAX_ARTIFACT_BYTES == i * MAX_ARTIFACT_BYTES + MAX_ARTIFACT_BYTES)
                by (nonlinear_arith);
            assert(i * MAX_ARTIFACT_BYTES <= 65536 * MAX_ARTIFACT_BYTES) by (nonlinear_arith)
                requires
                    i <= 65536,
            ;
        }
        total = total + manifest.outputs[i].1.length as u64;
        i = i + 1;
    }
    assert(manifest.outputs@.take(manifest.outputs@.len() as int) =~= manifest.outputs@);
    if total > MAX_ARTIFACT_BYTES as u64 {
        return Err(AssetError::new(ErrorKind::Cache, "source bundle exceeds size limit"));
    }
    let mut k: usize = 0;
    while k < manifest.outputs.len()
        invariant
            k <= manifest.outputs@.len(),
            manifest.target@ == registry.target@,
            total_length(manifest.outputs@) <= MAX_ARTIFACT_BYTES,
            forall|j: int|
                0 <= j < k ==> output_current(#[trigger] manifest.outputs@[j].1, registry.types@),
        decreases manifest.outputs.len() - k,
    {
        let output = &manifest.outputs[k].1;
        match registry.type_index(output.type_key.as_str()) {
            None => {
                return Err(
                    registration_error("unknown asset type: ", output.type_key.as_str()),
                );
            },
            Some(t) => {
                let ty = &registry.types[t];
                if ty.schema != output.schema || !str_equal(ty.codec.as_str(), output.codec.as_str()) {
                    proof {
                        let o = manifest.outputs@[k as int];
                        assert(!outputs_current(manifest.outputs@, registry.types@)) by {
                            if outputs_current(manifest.outputs@, registry.types@) {
                                assert(output_current(manifest.outputs@[k as int].1, registry.types@));
                                let u = choose|u: int|
                                    first_type(registry.types@, o.1.type_key@, u)
                                        && registry.types@[u].schema == o.1.schema
                                        && registry.types@[u].codec@ == o.1.codec@;
                                assert(u == t);
                            }
                        }
                    }
                    return Err(AssetError::new(ErrorKind::Cache, "asset schema or codec changed"));
                }
                assert(first_type(registry.types@, output.type_key@, t as int)
                    && registry.types@[t as int].schema == output.schema
                    && registry.types@[t as int].codec@ == output.codec@);
                assert(output_current(manifest.outputs@[k as int].1, registry.types@));
            },
        }
        k = k + 1;
    }
    Ok(())
}

// ---------------------------------------------------------------------------
// Decisions of a load.

/// Where a bundle comes from: the cache, or a fresh import.
#[derive(Debug, Clone, Copy, PartialEq, Eq, Structural)]
pub enum BundleSource {
    Cached,
    Import,
}

/// What looking a bundle up in the cache found: no cache, a manifest that
/// could not be read, or a manifest whose bundle was read (or not).
#[derive(Debug)]
pub enum CacheLookup {
    Disabled,
    ManifestFailed(AssetError),
    Read(core::result::Result<(), AssetError>),
}

fn with_address(message: &str, address: &AssetAddress) -> (s: String)
    ensures
        s@ == message@ + display_spec(address@),
{
    let mut s = message.to_owned();
    let text = address.describe();
    s.append(text.as_str());
    s
}

/// Decides where a bundle comes from. A cached bundle that was read is used;
/// otherwise the bundle is imported, unless assets are packaged, in which
/// case the cache's error (or a missing cache) is the load's error.
pub fn plan_bundle(lookup: CacheLookup, packaged: bool, address: &AssetAddress) -> (res: Result<BundleSource>)
    ensures
        match res {
            Ok(s) => s == if lookup matches CacheLookup::Read(Ok(())) {
                BundleSource::Cached
            } else {
                BundleSource::Import
            } && (packaged ==> s == BundleSource::Cached),
            Err(e) => packaged && !(lookup matches CacheLookup::Read(Ok(()))) && match lookup {
                CacheLookup::Disabled => e.kind == ErrorKind::Cache,
                CacheLookup::ManifestFailed(f) => e.kind == f.kind,
                CacheLookup::Read(r) => r matches Err(f) && e.kind == f.kind,
            },
        },
{
    match lookup {
        CacheLookup::Read(Ok(())) => Ok(BundleSource::Cached),
        CacheLookup::Read(Err(error)) => {
            if packaged {
                let context = with_address("packaged asset ", address);
                return Err(error.context(context.as_str()));
            }
            Ok(BundleSource::Import)
        },
        CacheLookup::ManifestFailed(error) => {
            if packaged {
                let context = address.describe();
                return Err(error.context(context.as_str()));
            }
            Ok(BundleSource::Import)
        },
        CacheLookup::Disabled => {
            if packaged {
                let context = address.describe();
                return Err(
                    AssetError::new(ErrorKind::Cache, "missing packaged cache").context(
                        context.as_str(),
                    ),
                );
            }
            Ok(BundleSource::Import)
        },
    }
}

/// How the importer of a bundle was chosen: explicitly with settings, by the
/// record of a cached variant, or by the path's extension.
#[derive(Debug, Clone, Copy, PartialEq, Eq, Structural)]
pub enum SelectionSource {
    Explicit,
    Recorded,
    ByExtension(usize),
}

/// Chooses how a bundle's importer is selected: an explicit selection wins;
/// a variant needs the manifest that recorded its settings; otherwise the
/// first importer that claims the path's extension.
pub fn select_importer(
    explicit: bool,
    address: &AssetAddress,
    has_manifest: bool,
    importers: &Vec<ImporterInfo>,
) -> (res: Result<SelectionSource>)
    ensures
        explicit ==> res == Ok::<SelectionSource, AssetError>(SelectionSource::Explicit),
        !explicit && address@.variant.len() > 0 ==> match res {
            Ok(s) => has_manifest && s == SelectionSource::Recorded,
            Err(e) => !has_manifest && e.kind == ErrorKind::Cache,
        },
        !explicit && address@.variant.len() == 0 ==> match res {
            Ok(s) => s matches SelectionSource::ByExtension(i) && i < importers@.len()
                && importer_accepts(importers@[i as int], path_extension(address@.path))
                && forall|j: int|
                0 <= j < i ==> !importer_accepts(#[trigger] importers@[j], path_extension(address@.path)),
            Err(e) => e.kind == ErrorKind::UnsupportedImporter && forall|j: int|
                0 <= j < importers@.len() ==> !importer_accepts(#[trigger] importers@[j], path_extension(address@.path)),
        },
{
    if explicit {
        return Ok(SelectionSource::Explicit);
    }
    let variant = chars_of(address.variant());
    if variant.len() > 0 {
        if !has_manifest {
            let mut message = with_address("missing settings for variant ", address);
            message.append("; load it with typed settings first");
            return Err(AssetError::new(ErrorKind::Cache, message.as_str()));
        }
        return Ok(SelectionSource::Recorded);
    }
    match choose_importer(importers, address.path()) {
        Some(i) => Ok(SelectionSource::ByExtension(i)),
        None => {
            let message = with_address("no importer for ", address);
            Err(AssetError::new(ErrorKind::UnsupportedImporter, message.as_str()))
        },
    }
}

/// A cached bundle was cooked by the selected importer, at its version, with
/// the same settings.
pub fn check_import_record(
    manifest: &Manifest,
    importer: &ImporterInfo,
    recorded_settings: &[u8],
    selected_settings: &[u8],
) -> (res: Result<()>)
    ensures
        res is Ok <==> manifest.importer@ == importer.key@ && manifest.importer_version
            == importer.version && recorded_settings@ == selected_settings@,
        res matches Err(e) ==> e.kind == ErrorKind::Cache,
{
    if !str_equal(manifest.importer.as_str(), importer.key.as_str()) || manifest.importer_version
        != importer.version || !bytes_same(recorded_settings, selected_settings) {
        return Err(AssetError::new(ErrorKind::Cache, "importer or settings changed"));
    }
    Ok(())
}

fn bytes_same(a: &[u8], b: &[u8]) -> (r: bool)
    ensures
        r == (a@ == b@),
{
    if a.len() != b.len() {
        return false;
    }
    let mut i: usize = 0;
    while i < a.len()
        invariant
            i <= a@.len(),
            a@.len() == b@.len(),
            forall|t: int| 0 <= t < i ==> a@[t] == b@[t],
        decreases a.len() - i,
    {
        if a[i] != b[i] {
            return false;
        }
        i = i + 1;
    }
    assert(a@ =~= b@);
    true
}

/// The root source of a manifest: its namespace and path, no label, no variant.
pub open spec fn source_root(a: AddressView) -> AddressView {
    AddressView { label: None, variant: Seq::empty(), ..a }
}

/// Checks that a cached manifest fingerprinted its root source.
pub fn check_root_input(manifest: &Manifest) -> (res: Result<()>)
    ensures
        res is Ok <==> exists|i: int|
            0 <= i < manifest.inputs@.len() && (#[trigger] manifest.inputs@[i]).0@ == source_root(
                manifest.source@,
            ),
        res matches Err(e) ==> e.kind == ErrorKind::Cache,
{
    let root = manifest.source.root_source();
    let mut i: usize = 0;
    while i < manifest.inputs.len()
        invariant
            i <= manifest.inputs@.len(),
            root@ == source_root(manifest.source@),
            forall|j: int| 0 <= j < i ==> (#[trigger] manifest.inputs@[j]).0@ != root@,
        decreases manifest.inputs.len() - i,
    {
        if manifest.inputs[i].0.same(&root) {
            return Ok(());
        }
        i = i + 1;
    }
    Err(AssetError::new(ErrorKind::Cache, "manifest has no root source fingerprint"))
}

/// A recorded input no longer matches its source: the source could not be
/// read (no fingerprint), or its fingerprint differs.
pub open spec fn input_changed(expected: Seq<char>, current: Option<String>) -> bool {
    match current {
        Some(f) => f@ != expected,
        None => true,
    }
}

/// Whether a watched root must be reloaded: it was never built, one of its
/// inputs changed, it has no stamp, or it failed.
pub fn needs_refresh(
    inputs: Option<&Vec<(AssetAddress, String)>>,
    fingerprints: &Vec<Option<String>>,
    has_stamp: bool,
    has_error: bool,
) -> (b: bool)
    requires
        inputs matches Some(v) ==> v@.len() == fingerprints@.len(),
    ensures
        b == (match inputs {
            None => true,
            Some(v) => exists|i: int|
                0 <= i < v@.len() && input_changed((#[trigger] v@[i]).1@, fingerprints@[i]),
        } || !has_stamp || has_error),
{
    let changed = match inputs {
        None => true,
        Some(v) => {
            let mut i: usize = 0;
            let mut any = false;
            while i < v.len()
                invariant
                    i <= v@.len(),
                    v@.len() == fingerprints@.len(),
                    any == exists|j: int| 0 <= j < i && input_changed((#[trigger] v@[j]).1@, fingerprints@[j]),
                decreases v.len() - i,
            {
                let differs = match &fingerprints[i] {
                    Some(f) => {
                        assert(fingerprints@[i as int] == Some(*f));
                        !str_equal(f.as_str(), v[i].1.as_str())
                    },
                    None => true,
                };
                assert(differs == input_changed(v@[i as int].1@, fingerprints@[i as int]));
                if differs {
                    any = true;
                }
                i = i + 1;
            }
            any
        },
    };
    changed || !has_stamp || has_error
}

/// The error a live slot reports when its output disappeared from its
/// freshly imported bundle.
pub fn removed_output_error(address: &AssetAddress) -> (e: AssetError)
    ensures
        e.kind == ErrorKind::MissingAsset,
        e.message@ == "output removed during reload: "@ + display_spec(address@),
        e.cause is None,
{
    let message = with_address("output removed during reload: ", address);
    AssetError::new(ErrorKind::MissingAsset, message.as_str())
}

/// A slot's output disappeared from its freshly imported bundle.
pub fn output_removed(imported: bool, outputs: &Vec<(String, Output)>, address: &AssetAddress) -> (b: bool)
    ensures
        b == (imported && forall|j: int|
            0 <= j < outputs@.len() ==> (#[trigger] outputs@[j]).0@ != output_label(address@)),
{
    if !imported {
        return false;
    }
    let label = match address.label() {
        Some(l) => l,
        None => "",
    };
    proof {
        reveal_strlit("");
    }
    let mut i: usize = 0;
    while i < outputs.len()
        invariant
            i <= outputs@.len(),
            label@ == output_label(address@),
            forall|j: int| 0 <= j < i ==> (#[trigger] outputs@[j]).0@ != label@,
        decreases outputs.len() - i,
    {
        if str_equal(outputs[i].0.as_str(), label) {
            return false;
        }
        i = i + 1;
    }
    true
}

/// Checks a reload request: the handle must come from this server, its type
/// must be registered, and it must name a source.
pub fn check_reload(server: u64, handle: AssetId, registered: bool, has_address: bool) -> (res: Result<()>)
    ensures
        res is Ok <==> handle.server == server && registered && has_address,
        handle.server != server ==> (res matches Err(e) && e.kind == ErrorKind::InvalidPath),
        handle.server == server && !registered ==> (res matches Err(e) && e.kind == ErrorKind::Registration),
        handle.server == server && registered && !has_address ==> (res matches Err(e) && e.kind
            == ErrorKind::InvalidPath),
{
    if handle.server != server {
        return Err(AssetError::new(ErrorKind::InvalidPath, "handle belongs to another asset server"));
    }
    if !registered {
        return Err(AssetError::new(ErrorKind::Registration, "asset type not registered"));
    }
    if !has_address {
        return Err(AssetError::new(ErrorKind::InvalidPath, "generated assets have no source to reload"));
    }
    Ok(())
}


/// The fingerprint of a source's bytes: their blake3 digest in hexadecimal.
pub fn source_fingerprint(bytes: &[u8]) -> (s: String)
    ensures
        s@ == blake3_hex(bytes@),
{
    blake3_hex_of(bytes)
}

/// Checks a recorded input against the bytes its source holds now.
pub fn check_input(address: &AssetAddress, expected: &str, bytes: &[u8]) -> (res: Result<()>)
    ensures
        res is Ok <==> blake3_hex(bytes@) == expected@,
        res matches Err(e) ==> e.kind == ErrorKind::Cache && e.message@ == "source changed: "@
            + display_spec(address@),
{
    let current = source_fingerprint(bytes);
    if !str_equal(current.as_str(), expected) {
        return Err(AssetError::new(ErrorKind::Cache, with_address("source changed: ", address).as_str()));
    }
    Ok(())
}

} // verus!
