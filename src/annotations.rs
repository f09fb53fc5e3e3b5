//! Device injection requests carried in container annotations.
use vstd::prelude::*;
use crate::chars::{alphanumeric, has_prefix, is_alphanumeric_char, push_char_of, same_text, starts_with, text_chars};
use crate::specs::items;
use crate::parser::{parse_qualified_name, parse_spec, ParseError};

verus! {

/// The prefix of every annotation key that requests devices.
pub const ANNOTATION_PREFIX: &'static str = "cdi.k8s.io/";

/// The longest name part of an annotation key.
pub const MAX_NAME_LEN: usize = 63;

/// Why an annotation key, value or update is refused.
#[derive(Clone, Copy, Debug, PartialEq, Eq, Structural)]
pub enum AnnotationError {
    EmptyPluginName,
    EmptyDeviceId,
    NameTooLong,
    NameBadFirst,
    NameBadChar,
    NameBadLast,
    KeyCollision,
    InvalidDevice(ParseError),
}

pub open spec fn slash_to_underscore(s: Seq<char>) -> Seq<char> {
    Seq::new(s.len(), |i: int| if s[i] == '/' { '_' } else { s[i] })
}

/// `plugin_deviceid`, with every `/` of the device id turned into `_`.
pub open spec fn key_name(plugin: Seq<char>, device_id: Seq<char>) -> Seq<char> {
    plugin + seq!['_'] + slash_to_underscore(device_id)
}

pub open spec fn key_char(c: char) -> bool {
    alphanumeric(c) || c == '_' || c == '-' || c == '.'
}

/// The annotation key for a plugin's allocation of a device, or why there is none.
pub open spec fn annotation_key_spec(plugin: Seq<char>, device_id: Seq<char>) -> Result<Seq<char>, AnnotationError> {
    let n = key_name(plugin, device_id);
    if plugin.len() == 0 {
        Err(AnnotationError::EmptyPluginName)
    } else if device_id.len() == 0 {
        Err(AnnotationError::EmptyDeviceId)
    } else if n.len() > MAX_NAME_LEN {
        Err(AnnotationError::NameTooLong)
    } else if !alphanumeric(n[0]) {
        Err(AnnotationError::NameBadFirst)
    } else if !(forall|i: int| 1 <= i < n.len() ==> key_char(#[trigger] n[i])) {
        Err(AnnotationError::NameBadChar)
    } else if !alphanumeric(n.last()) {
        Err(AnnotationError::NameBadLast)
    } else {
        Ok(ANNOTATION_PREFIX@ + n)
    }
}

/// The texts of `s` joined by `,`.
pub open spec fn join_comma(s: Seq<Seq<char>>) -> Seq<char>
    decreases s.len(),
{
    if s.len() == 0 {
        Seq::empty()
    } else if s.len() == 1 {
        s[0]
    } else {
        join_comma(s.drop_last()) + seq![','] + s.last()
    }
}

/// The pieces of `s` between commas; an empty text is one empty piece.
pub open spec fn split_comma(s: Seq<char>) -> Seq<Seq<char>>
    decreases s.len(),
{
    if s.len() == 0 {
        seq![Seq::empty()]
    } else {
        let r = split_comma(s.drop_last());
        if s.last() == ',' {
            r.push(Seq::empty())
        } else {
            r.update(r.len() - 1, r.last().push(s.last()))
        }
    }
}

pub open spec fn views(s: Seq<String>) -> Seq<Seq<char>> {
    s.map_values(|x: String| x@)
}

pub open spec fn all_qualified(s: Seq<Seq<char>>) -> bool {
    forall|i: int| 0 <= i < s.len() ==> (#[trigger] parse_spec(s[i])) is Ok
}

/// The keys of the device requests among `a`, in order.
pub open spec fn request_keys(a: Seq<(String, String)>) -> Seq<Seq<char>>
    decreases a.len(),
{
    if a.len() == 0 {
        Seq::empty()
    } else if has_prefix(a.last().0@, ANNOTATION_PREFIX@) {
        request_keys(a.drop_last()).push(a.last().0@)
    } else {
        request_keys(a.drop_last())
    }
}

/// The devices requested by the entries of `a`, in order.
pub open spec fn request_devices(a: Seq<(String, String)>) -> Seq<Seq<char>>
    decreases a.len(),
{
    if a.len() == 0 {
        Seq::empty()
    } else if has_prefix(a.last().0@, ANNOTATION_PREFIX@) {
        request_devices(a.drop_last()) + split_comma(a.last().1@)
    } else {
        request_devices(a.drop_last())
    }
}

proof fn lemma_split_comma_nonempty(s: Seq<char>)
    ensures
        split_comma(s).len() >= 1,
    decreases s.len(),
{
    if s.len() > 0 {
        lemma_split_comma_nonempty(s.drop_last());
    }
}

/// Splits `s` at every `,`.
pub fn split_commas(s: &str) -> (r: Vec<String>)
    ensures
        views(r@) == split_comma(s@),
{
    let chars = text_chars(s);
    let n = chars.len();
    let mut parts: Vec<String> = Vec::new();
    let mut start: usize = 0;
    let mut i: usize = 0;
    assert(split_comma(s@.subrange(0, 0)) =~= seq![Seq::<char>::empty()]);
    assert(s@.subrange(0, 0) =~= Seq::<char>::empty());
    while i < n
        invariant
            n == s@.len(),
            chars@ == s@,
            0 <= start <= i <= n,
            views(parts@).push(s@.subrange(start as int, i as int)) == split_comma(s@.subrange(0, i as int)),
        decreases n - i,
    {
        let c = chars[i];
        proof {
            let t = s@.subrange(0, i + 1);
            assert(t.drop_last() =~= s@.subrange(0, i as int));
            assert(t.last() == c);
            lemma_split_comma_nonempty(s@.subrange(0, i as int));
        }
        if c == ',' {
            let piece = s.substring_char(start, i).to_string();
            let ghost before = views(parts@);
            let ghost old_start = start;
            parts.push(piece);
            start = i + 1;
            assert(s@.subrange(start as int, i + 1) =~= Seq::<char>::empty());
            assert(views(parts@) =~= before.push(s@.subrange(old_start as int, i as int)));
            assert(views(parts@).push(s@.subrange(start as int, i + 1)) =~= split_comma(s@.subrange(0, i + 1)));
        } else {
            assert(s@.subrange(start as int, i + 1) =~= s@.subrange(start as int, i as int).push(c));
            assert(views(parts@).push(s@.subrange(start as int, i + 1)) =~= split_comma(s@.subrange(0, i + 1)));
        }
        i = i + 1;
    }
    assert(s@.subrange(0, n as int) =~= s@);
    let last = s.substring_char(start, n).to_string();
    parts.push(last);
    assert(views(parts@) =~= split_comma(s@));
    parts
}

/// Builds the annotation key under which a device plugin records its
/// allocation of a device: `cdi.k8s.io/<plugin>_<device id>`, every `/` of
/// the device id turned into `_`. The part after the prefix has at most 63
/// characters, starts and ends with an alphanumeric character and otherwise
/// holds alphanumeric characters, `_`, `-` and `.`.
pub fn annotation_key(plugin_name: &str, device_id: &str) -> (r: Result<String, AnnotationError>)
    ensures
        match (r, annotation_key_spec(plugin_name@, device_id@)) {
            (Ok(k), Ok(sk)) => k@ == sk,
            (Err(e), Err(se)) => e == se,
            _ => false,
        },
{
    if plugin_name.unicode_len() == 0 {
        return Err(AnnotationError::EmptyPluginName);
    }
    if device_id.unicode_len() == 0 {
        return Err(AnnotationError::EmptyDeviceId);
    }
    let mut name = String::from_str(plugin_name);
    name.append("_");
    proof {
        reveal_strlit("_");
    }
    let ghost head = name@;
    let m = device_id.unicode_len();
    let mut j: usize = 0;
    while j < m
        invariant
            m == device_id@.len(),
            0 <= j <= m,
            head == plugin_name@ + seq!['_'],
            "_"@ == seq!['_'],
            name@ == head + slash_to_underscore(device_id@).subrange(0, j as int),
        decreases m - j,
    {
        if device_id.get_char(j) == '/' {
            name.append("_");
        } else {
            push_char_of(&mut name, device_id, j);
        }
        assert(name@ =~= head + slash_to_underscore(device_id@).subrange(0, j + 1));
        j = j + 1;
    }
    assert(slash_to_underscore(device_id@).subrange(0, m as int) =~= slash_to_underscore(device_id@));
    let ghost kn = key_name(plugin_name@, device_id@);
    assert(name@ =~= kn);
    let name = name.as_str();
    let n = name.unicode_len();
    if n > MAX_NAME_LEN {
        return Err(AnnotationError::NameTooLong);
    }
    if !is_alphanumeric_char(name.get_char(0)) {
        return Err(AnnotationError::NameBadFirst);
    }
    let mut i: usize = 1;
    while i < n
        invariant
            n == name@.len(),
            name@ == key_name(plugin_name@, device_id@),
            plugin_name@.len() > 0,
            device_id@.len() > 0,
            n <= MAX_NAME_LEN,
            alphanumeric(name@[0]),
            1 <= i <= n,
            forall|k: int| 1 <= k < i ==> key_char(#[trigger] name@[k]),
        decreases n - i,
    {
        let c = name.get_char(i);
        if !(is_alphanumeric_char(c) || c == '_' || c == '-' || c == '.') {
            proof {
                let kn2 = key_name(plugin_name@, device_id@);
                assert(kn2[i as int] == c);
                assert(!key_char(kn2[i as int]));
                assert(!(forall|q: int| 1 <= q < kn2.len() ==> key_char(#[trigger] kn2[q])));
            }
            return Err(AnnotationError::NameBadChar);
        }
        i = i + 1;
    }
    if !is_alphanumeric_char(name.get_char(n - 1)) {
        return Err(AnnotationError::NameBadLast);
    }
    let mut key = String::from_str(ANNOTATION_PREFIX);
    key.append(name);
    Ok(key)
}

/// Joins qualified device names with `,` into an annotation value; the first
/// name that does not parse is the error.
pub fn annotation_value(devices: Vec<String>) -> (r: Result<String, AnnotationError>)
    ensures
        r is Ok <==> all_qualified(views(devices@)),
        r is Ok ==> r->Ok_0@ == join_comma(views(devices@)),
        r is Err ==> r->Err_0 is InvalidDevice && exists|i: int|
            0 <= i < devices@.len() && parse_spec(#[trigger] devices@[i]@) == Err::<(Seq<char>, Seq<char>, Seq<char>), ParseError>(r->Err_0->InvalidDevice_0)
                && forall|j: int| 0 <= j < i ==> (#[trigger] parse_spec(devices@[j]@)) is Ok,
{
    let mut i: usize = 0;
    while i < devices.len()
        invariant
            0 <= i <= devices@.len(),
            forall|k: int| 0 <= k < i ==> (#[trigger] parse_spec(devices@[k]@)) is Ok,
        decreases devices@.len() - i,
    {
        if let Err(e) = parse_qualified_name(devices[i].as_str()) {
            proof {
                assert(views(devices@)[i as int] == devices@[i as int]@);
                assert(parse_spec(devices@[i as int]@) == Err::<(Seq<char>, Seq<char>, Seq<char>), ParseError>(e));
            }
            return Err(AnnotationError::InvalidDevice(e));
        }
        i = i + 1;
    }
    assert(all_qualified(views(devices@))) by {
        assert forall|k: int| 0 <= k < views(devices@).len() implies (#[trigger] parse_spec(
            views(devices@)[k],
        )) is Ok by {
            assert(views(devices@)[k] == devices@[k]@);
        }
    }
    let mut value = String::new();
    let mut j: usize = 0;
    proof {
        reveal_strlit(",");
    }
    while j < devices.len()
        invariant
            0 <= j <= devices@.len(),
            ","@ == seq![','],
            value@ == join_comma(views(devices@).subrange(0, j as int)),
        decreases devices@.len() - j,
    {
        let ghost prev = views(devices@).subrange(0, j as int);
        let ghost next = views(devices@).subrange(0, j + 1);
        assert(next.drop_last() =~= prev);
        assert(next.last() == devices@[j as int]@);
        if j > 0 {
            value.append(",");
        } else {
            assert(prev.len() == 0);
        }
        value.append(devices[j].as_str());
        assert(value@ =~= join_comma(next));
        j = j + 1;
    }
    assert(views(devices@).subrange(0, devices@.len() as int) =~= views(devices@));
    Ok(value)
}

/// Collects the device injection requests among annotations: the keys that
/// start with `cdi.k8s.io/`, in order, and the comma-separated devices of
/// their values. Every such device must be a qualified name.
pub fn parse_annotations(annotations: &Vec<(String, String)>) -> (r: Result<(Vec<String>, Vec<String>), AnnotationError>)
    ensures
        r is Ok <==> all_qualified(request_devices(annotations@)),
        r is Ok ==> views(r->Ok_0.0@) == request_keys(annotations@) && views(r->Ok_0.1@)
            == request_devices(annotations@),
        r is Err ==> r->Err_0 is InvalidDevice && exists|i: int|
            0 <= i < request_devices(annotations@).len() && parse_spec(#[trigger] request_devices(annotations@)[i])
                == Err::<(Seq<char>, Seq<char>, Seq<char>), ParseError>(r->Err_0->InvalidDevice_0),
{
    let mut keys: Vec<String> = Vec::new();
    let mut devices: Vec<String> = Vec::new();
    let mut i: usize = 0;
    while i < annotations.len()
        invariant
            0 <= i <= annotations@.len(),
            views(keys@) == request_keys(annotations@.subrange(0, i as int)),
            views(devices@) == request_devices(annotations@.subrange(0, i as int)),
            all_qualified(views(devices@)),
        decreases annotations@.len() - i,
    {
        let ghost prefix = annotations@.subrange(0, i + 1);
        proof {
            assert(prefix.drop_last() =~= annotations@.subrange(0, i as int));
            assert(prefix.last() == annotations@[i as int]);
        }
        let (k, v) = &annotations[i];
        if starts_with(k.as_str(), ANNOTATION_PREFIX) {
            let parts = split_commas(v.as_str());
            let mut j: usize = 0;
            while j < parts.len()
                invariant
                    0 <= j <= parts@.len(),
                    i < annotations@.len(),
                    views(parts@).len() == parts@.len(),
                    prefix == annotations@.subrange(0, i + 1),
                    prefix.drop_last() == annotations@.subrange(0, i as int),
                    prefix.last() == annotations@[i as int],
                    annotations@[i as int].0 == *k,
                    annotations@[i as int].1 == *v,
                    has_prefix(k@, ANNOTATION_PREFIX@),
                    views(parts@) == split_comma(v@),
                    views(devices@) == request_devices(annotations@.subrange(0, i as int)) + views(
                        parts@,
                    ).subrange(0, j as int),
                    all_qualified(views(devices@)),
                decreases parts@.len() - j,
            {
                let d = parts[j].as_str();
                let parsed = parse_qualified_name(d);
                if let Err(err) = parsed {
                    proof {
                        let all = request_devices(annotations@);
                        lemma_request_devices_prefix(annotations@, i as int + 1);
                        let before = request_devices(prefix);
                        assert(before == request_devices(annotations@.subrange(0, i as int)) + views(parts@));
                        let at = request_devices(annotations@.subrange(0, i as int)).len() + j;
                        assert(views(parts@)[j as int] == d@);
                        assert(before[at] == d@);
                        assert(all[at] == d@);
                        assert(parse_spec(all[at]) == Err::<(Seq<char>, Seq<char>, Seq<char>), ParseError>(err));
                    }
                    return Err(AnnotationError::InvalidDevice(err));
                }
                let ghost before = devices@;
                let item = parts[j].clone();
                devices.push(item);
                assert(views(parts@)[j as int] == parts@[j as int]@);
                assert(views(devices@) =~= views(before).push(item@));
                assert(all_qualified(views(devices@))) by {
                    assert forall|q: int| 0 <= q < views(devices@).len() implies (#[trigger] parse_spec(
                        views(devices@)[q],
                    )) is Ok by {
                        if q < views(before).len() {
                            assert(views(devices@)[q] == views(before)[q]);
                        }
                    }
                }
                assert(views(devices@) =~= request_devices(annotations@.subrange(0, i as int))
                    + views(parts@).subrange(0, j + 1));
                j = j + 1;
            }
            assert(views(parts@).subrange(0, parts@.len() as int) =~= views(parts@));
            keys.push(k.clone());
            assert(views(keys@) =~= request_keys(prefix));
        }
        i = i + 1;
    }
    assert(annotations@.subrange(0, annotations@.len() as int) =~= annotations@);
    Ok((keys, devices))
}

/// What `request_devices` gives on a prefix is a prefix of what it gives on the whole.
proof fn lemma_request_devices_prefix(a: Seq<(String, String)>, n: int)
    requires
        0 <= n <= a.len(),
    ensures
        request_devices(a.subrange(0, n)).len() <= request_devices(a).len(),
        forall|k: int| 0 <= k < request_devices(a.subrange(0, n)).len()
            ==> #[trigger] request_devices(a)[k] == request_devices(a.subrange(0, n))[k],
    decreases a.len() - n,
{
    if n < a.len() {
        lemma_request_devices_prefix(a, n + 1);
        let p = a.subrange(0, n + 1);
        assert(p.drop_last() =~= a.subrange(0, n));
    } else {
        assert(a.subrange(0, n) =~= a);
    }
}

/// No entry of `a` has the key `key`.
pub open spec fn key_absent(a: Seq<(String, String)>, key: Seq<char>) -> bool {
    forall|i: int| 0 <= i < a.len() ==> (#[trigger] a[i]).0@ != key
}

/// Adds to `annotations` a device injection request of a plugin for a device:
/// the key from `annotation_key`, the value from `annotation_value`. A key
/// already present is refused. On any error nothing is added.
pub fn update_annotations(
    option_annotations: Option<Vec<(String, String)>>,
    plugin_name: &str,
    device_id: &str,
    devices: Vec<String>,
) -> (r: Result<Vec<(String, String)>, AnnotationError>)
    ensures
        annotation_key_spec(plugin_name@, device_id@) is Err ==> r == Err::<
            Vec<(String, String)>,
            AnnotationError,
        >(annotation_key_spec(plugin_name@, device_id@)->Err_0),
        r is Ok ==> ({
            let key = annotation_key_spec(plugin_name@, device_id@)->Ok_0;
            let old_a = items(option_annotations);
            &&& annotation_key_spec(plugin_name@, device_id@) is Ok
            &&& key_absent(old_a, key)
            &&& all_qualified(views(devices@))
            &&& r->Ok_0@ == old_a.push(r->Ok_0@.last())
            &&& r->Ok_0@.last().0@ == key
            &&& r->Ok_0@.last().1@ == join_comma(views(devices@))
        }),
        annotation_key_spec(plugin_name@, device_id@) is Ok && all_qualified(views(devices@))
            && key_absent(items(option_annotations), annotation_key_spec(plugin_name@, device_id@)->Ok_0)
            ==> r is Ok,
{
    let ghost old_a = items(option_annotations);
    let mut annotations = match option_annotations {
        Some(a) => a,
        None => Vec::new(),
    };
    assert(annotations@ =~= old_a);
    let key = match annotation_key(plugin_name, device_id) {
        Ok(k) => k,
        Err(e) => return Err(e),
    };
    let mut i: usize = 0;
    while i < annotations.len()
        invariant
            0 <= i <= annotations@.len(),
            annotations@ == old_a,
            old_a == items(option_annotations),
            annotation_key_spec(plugin_name@, device_id@) is Ok,
            key@ == annotation_key_spec(plugin_name@, device_id@)->Ok_0,
            forall|k: int| 0 <= k < i ==> (#[trigger] annotations@[k]).0@ != key@,
        decreases annotations@.len() - i,
    {
        if same_text(annotations[i].0.as_str(), key.as_str()) {
            assert(!key_absent(old_a, key@)) by {
                assert(old_a[i as int].0@ == key@);
            }

            return Err(AnnotationError::KeyCollision);
        }
        i = i + 1;
    }
    let value = match annotation_value(devices) {
        Ok(v) => v,
        Err(e) => return Err(e),
    };
    annotations.push((key, value));
    Ok(annotations)
}

} // verus!
