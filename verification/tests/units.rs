use std::collections::BTreeMap;

use state_res::media::{
    EncryptedContent, EncryptedContentInit, FileContentInfo, ImageContent, ThumbnailContent,
    ThumbnailFileContent, ThumbnailFileContentInfo,
};
use state_res::order::{id_less, least_index, SortKey};
use state_res::content::PowerLevelsContentFields;
use state_res::room_version::{EventFormatVersion, StateResolutionVersion};
use state_res::separate::{all_equal, unique};
use state_res::{
    add_event_and_auth_chain_to_graph, apply_verdict, get_auth_chain_diff, get_mainline_depth,
    get_power_level_for_sender, is_power_event, is_power_event_id,
    is_power_event_with_membership, is_type_and_key, sender_level_with,
    iterative_auth_check, lexicographical_topological_sort, mainline_sort, resolve,
    reverse_topological_power_sort, separate, EncryptedFile, EncryptedFileInit, Error, Event,
    EventGraph, EventIdSet, EventStore, EventTypeExt, ImageInfo, JsonWebKey, JsonWebKeyInit,
    MediaSource, RoomVersion, RoomVersionId, StateEventType, StateKey, StateMap, ThumbnailInfo,
    TimelineEventType, VecMap, VecSet,
};

type TestState = BTreeMap<(String, String), String>;

fn event(
    id: &str,
    sender: &str,
    kind: TimelineEventType,
    state_key: Option<&str>,
    content: &str,
    auth_events: &[&str],
    ts: u64,
) -> Event {
    Event::new(
        id,
        kind,
        state_key,
        sender,
        content,
        auth_events.iter().map(|id| (*id).to_owned()).collect(),
        ts,
    )
}

fn store_of(events: Vec<Event>) -> EventStore {
    let mut store = EventStore::new();
    for ev in events {
        store.insert(ev);
    }
    store
}

fn state_map_of(entries: &[(&str, &str, &str)]) -> StateMap<String> {
    let mut map: StateMap<String> = VecMap::new();
    for (kind, key, id) in entries {
        map.insert(StateEventType::new(kind).with_state_key(key), (*id).to_owned());
    }
    map
}

fn test_state_of(map: &StateMap<String>) -> TestState {
    let mut state = TestState::new();
    for i in 0..map.len() {
        let key = map.key_at(i);
        state.insert((key.0.name.clone(), key.1.clone()), map.value_at(i).clone());
    }
    state
}

fn expected_state(entries: &[(&str, &str, &str)]) -> TestState {
    entries
        .iter()
        .map(|(kind, key, id)| (((*kind).to_owned(), (*key).to_owned()), (*id).to_owned()))
        .collect()
}

fn id_set_of(ids: &[&str]) -> EventIdSet {
    let mut set: EventIdSet = VecSet::new();
    for id in ids {
        set.insert((*id).to_owned());
    }
    set
}

fn sorted_elements(set: &EventIdSet) -> Vec<String> {
    let mut ids = (0..set.len()).map(|i| set.get(i).clone()).collect::<Vec<_>>();
    ids.sort();
    ids
}

fn graph_of(edges: &[(&str, &[&str])]) -> EventGraph {
    let mut graph: EventGraph = VecMap::new();
    for (node, parents) in edges {
        graph.insert((*node).to_owned(), id_set_of(parents));
    }
    graph
}

fn graph_edges(graph: &EventGraph) -> BTreeMap<String, Vec<String>> {
    (0..graph.len())
        .map(|i| (graph.key_at(i).clone(), sorted_elements(graph.value_at(i))))
        .collect()
}

fn strings(ids: &[&str]) -> Vec<String> {
    ids.iter().map(|id| (*id).to_owned()).collect()
}

fn accept_all(
    _room_version: &RoomVersion,
    _event: &Event,
    _third_party_invite: Option<&Event>,
    _context: &StateMap<&Event>,
) -> Result<bool, Error> {
    Ok(true)
}

fn reject_all(
    _room_version: &RoomVersion,
    _event: &Event,
    _third_party_invite: Option<&Event>,
    _context: &StateMap<&Event>,
) -> Result<bool, Error> {
    Ok(false)
}

fn reject_topics(
    _room_version: &RoomVersion,
    event: &Event,
    _third_party_invite: Option<&Event>,
    _context: &StateMap<&Event>,
) -> Result<bool, Error> {
    Ok(event.kind.name != "m.room.topic")
}

fn no_auth_types(
    _kind: &TimelineEventType,
    _sender: &String,
    _state_key: Option<&String>,
    _content: &String,
) -> Result<Vec<StateKey>, Error> {
    Ok(vec![])
}

fn power_levels_needed(
    _kind: &TimelineEventType,
    _sender: &String,
    _state_key: Option<&String>,
    _content: &String,
) -> Result<Vec<StateKey>, Error> {
    Ok(vec![StateEventType::room_power_levels().with_state_key("")])
}

fn failing_auth_types(
    _kind: &TimelineEventType,
    _sender: &String,
    _state_key: Option<&String>,
    _content: &String,
) -> Result<Vec<StateKey>, Error> {
    Err(Error::InvalidPdu("no auth types".to_owned()))
}

fn topic() -> TimelineEventType {
    TimelineEventType::new("m.room.topic")
}

fn dummy_jwt() -> JsonWebKey {
    JsonWebKey::from(JsonWebKeyInit {
        kty: "oct".to_owned(),
        key_ops: vec!["encrypt".to_owned(), "decrypt".to_owned()],
        alg: "A256CTR".to_owned(),
        k: "AAAA".to_owned(),
        ext: true,
    })
}

fn encrypted_file() -> EncryptedFile {
    EncryptedFile::from(EncryptedFileInit {
        url: "mxc://localhost/encryptedfile".to_owned(),
        key: dummy_jwt(),
        iv: "AAAA".to_owned(),
        hashes: VecMap::new(),
        v: "v2".to_owned(),
    })
}

#[test]
fn prefer_encrypted_attachment_over_plain() {
    let source = MediaSource::from_url_or_file(
        Some("mxc://localhost/file".to_owned()),
        Some(Box::new(encrypted_file())),
    )
    .unwrap();

    assert!(matches!(source, MediaSource::Encrypted(_)));

    // As above: the order of the fields in the text makes no difference to what is read.
    let source = MediaSource::from_url_or_file(
        Some("mxc://localhost/file".to_owned()),
        Some(Box::new(encrypted_file())),
    )
    .unwrap();

    assert!(matches!(source, MediaSource::Encrypted(_)));
}

#[test]
fn media_source_from_file_alone_is_encrypted() {
    let source = MediaSource::from_url_or_file(None, Some(Box::new(encrypted_file()))).unwrap();
    assert!(matches!(source, MediaSource::Encrypted(_)));
}

#[test]
fn media_source_from_url_alone_is_plain() {
    let source = MediaSource::from_url_or_file(Some("mxc://localhost/file".to_owned()), None);
    match source {
        Ok(MediaSource::Plain(url)) => assert_eq!(url, "mxc://localhost/file"),
        other => panic!("{other:?}"),
    }
}

#[test]
fn media_source_without_url_and_file_is_an_error() {
    match MediaSource::from_url_or_file(None, None) {
        Err(Error::SerdeJson(message)) => assert_eq!(message, "missing field `url`"),
        other => panic!("{other:?}"),
    }
}

#[test]
fn media_source_into_extensible_content() {
    let (url, encrypted) = MediaSource::Plain("mxc://localhost/a".to_owned()).into_extensible_content();
    assert_eq!(url, "mxc://localhost/a");
    assert!(encrypted.is_none());

    let (url, encrypted) =
        MediaSource::Encrypted(Box::new(encrypted_file())).into_extensible_content();
    assert_eq!(url, "mxc://localhost/encryptedfile");
    let encrypted = encrypted.unwrap();
    assert_eq!(encrypted.v, "v2");
    assert_eq!(encrypted.iv, "AAAA");
    assert_eq!(encrypted.key.kty, "oct");
    assert_eq!(encrypted.key.key_ops, vec!["encrypt", "decrypt"]);
}

#[test]
fn encrypted_file_from_extensible_content_copies_the_fields() {
    let mut hashes: VecMap<String, String> = VecMap::new();
    hashes.insert("sha256".to_owned(), "q83v".to_owned());
    let info = EncryptedContent::from(EncryptedContentInit {
        key: dummy_jwt(),
        iv: "BwgJ".to_owned(),
        hashes,
        v: "v2".to_owned(),
    });
    let file = EncryptedFile::from_extensible_content("mxc://localhost/b", &info);
    assert_eq!(file.url, "mxc://localhost/b");
    assert_eq!(file.iv, "BwgJ");
    assert_eq!(file.v, "v2");
    assert_eq!(file.key.alg, "A256CTR");
    assert_eq!(file.key.k, "AAAA");
    assert!(file.key.ext);
    assert_eq!(file.hashes.len(), 1);
    assert_eq!(file.hashes.get(&"sha256".to_owned()), Some(&"q83v".to_owned()));
}

#[test]
fn thumbnail_info_from_extensible_content() {
    assert!(ThumbnailInfo::from_extensible_content(None, None).is_none());

    let file_info = ThumbnailFileContentInfo { mimetype: Some("image/png".to_owned()), size: Some(9) };
    let image = ImageContent { height: Some(3), width: None };
    let info = ThumbnailInfo::from_extensible_content(Some(&file_info), Some(&image)).unwrap();
    assert_eq!(info.height, Some(3));
    assert_eq!(info.width, None);
    assert_eq!(info.mimetype.as_deref(), Some("image/png"));
    assert_eq!(info.size, Some(9));

    let info = ThumbnailInfo::from_extensible_content(None, Some(&image)).unwrap();
    assert_eq!(info.mimetype, None);
    assert_eq!(info.size, None);

    let empty = ThumbnailInfo::new();
    assert!(empty.height.is_none() && empty.width.is_none());
    assert!(empty.mimetype.is_none() && empty.size.is_none());
}

#[test]
fn image_info_from_extensible_content() {
    let nothing = ImageContent { height: None, width: None };
    assert!(ImageInfo::from_extensible_content(None, &nothing, &vec![]).is_none());

    let file_info = FileContentInfo {
        name: Some("a.png".to_owned()),
        mimetype: Some("image/png".to_owned()),
        size: Some(100),
    };
    let image = ImageContent { height: Some(10), width: Some(20) };
    let thumbnails = vec![
        ThumbnailContent {
            file: ThumbnailFileContent {
                url: "mxc://localhost/thumb".to_owned(),
                info: Some(Box::new(ThumbnailFileContentInfo { mimetype: None, size: Some(5) })),
                encryption_info: None,
            },
            image: Some(Box::new(ImageContent { height: Some(1), width: Some(2) })),
        },
        ThumbnailContent {
            file: ThumbnailFileContent {
                url: "mxc://localhost/other".to_owned(),
                info: None,
                encryption_info: None,
            },
            image: None,
        },
    ];
    let info = ImageInfo::from_extensible_content(Some(&file_info), &image, &thumbnails).unwrap();
    assert_eq!(info.height, Some(10));
    assert_eq!(info.width, Some(20));
    assert_eq!(info.mimetype.as_deref(), Some("image/png"));
    assert_eq!(info.size, Some(100));
    match info.thumbnail_source {
        Some(MediaSource::Plain(url)) => assert_eq!(url, "mxc://localhost/thumb"),
        other => panic!("{other:?}"),
    }
    let thumbnail_info = info.thumbnail_info.unwrap();
    assert_eq!(thumbnail_info.height, Some(1));
    assert_eq!(thumbnail_info.width, Some(2));
    assert_eq!(thumbnail_info.size, Some(5));

    // An image without file info and thumbnail still has its dimensions.
    let info = ImageInfo::from_extensible_content(None, &image, &vec![]).unwrap();
    assert_eq!(info.height, Some(10));
    assert!(info.thumbnail_source.is_none() && info.thumbnail_info.is_none());

    let empty = ImageInfo::new();
    assert!(empty.height.is_none() && empty.thumbnail_source.is_none());
}

#[test]
fn invite_request_and_response_hold_their_fields() {
    let request = state_res::invite::Request::new(
        "!room:foo".to_owned(),
        "$invite:foo".to_owned(),
        RoomVersionId::V6,
        "{}".to_owned(),
        vec!["{\"type\":\"m.room.name\"}".to_owned()],
    );
    assert_eq!(request.room_id, "!room:foo");
    assert_eq!(request.event_id, "$invite:foo");
    assert!(matches!(request.room_version, RoomVersionId::V6));
    assert_eq!(request.event, "{}");
    assert_eq!(request.invite_room_state.len(), 1);

    let response = state_res::invite::Response::new("{\"a\":1}".to_owned());
    assert_eq!(response.event, "{\"a\":1}");
}

#[test]
fn separate_without_state_sets_is_empty() {
    let (unconflicted, conflicted) = separate(&vec![]);
    assert!(unconflicted.is_empty());
    assert!(conflicted.is_empty());
}

#[test]
fn separate_splits_agreed_from_disputed_keys() {
    let sets = vec![
        state_map_of(&[
            ("m.room.create", "", "$c"),
            ("m.room.topic", "", "$t1"),
            ("m.room.member", "@a:foo", "$ma"),
            ("m.room.name", "", "$n"),
        ]),
        state_map_of(&[
            ("m.room.create", "", "$c"),
            ("m.room.topic", "", "$t2"),
            ("m.room.member", "@b:foo", "$mb"),
            ("m.room.name", "", "$n"),
        ]),
        state_map_of(&[
            ("m.room.name", "", "$n"),
            ("m.room.create", "", "$c"),
            ("m.room.topic", "", "$t1"),
        ]),
    ];
    let (unconflicted, conflicted) = separate(&sets);

    assert_eq!(
        test_state_of(&unconflicted),
        expected_state(&[("m.room.create", "", "$c"), ("m.room.name", "", "$n")])
    );

    assert_eq!(conflicted.len(), 3);
    // The values present are listed in the order of the state sets, twice where two
    // sets hold the same.
    assert_eq!(
        conflicted.get(&StateEventType::new("m.room.topic").with_state_key("")),
        Some(&strings(&["$t1", "$t2", "$t1"]))
    );
    // A key that one set holds and another does not is in conflict.
    assert_eq!(
        conflicted.get(&StateEventType::room_member().with_state_key("@a:foo")),
        Some(&strings(&["$ma"]))
    );
    assert_eq!(
        conflicted.get(&StateEventType::room_member().with_state_key("@b:foo")),
        Some(&strings(&["$mb"]))
    );
}

#[test]
fn separate_keeps_the_empty_state_key_apart() {
    let sets = vec![
        state_map_of(&[("m.room.topic", "", "$t"), ("m.room.topic", "x", "$x")]),
        state_map_of(&[("m.room.topic", "", "$t"), ("m.room.topic", "x", "$y")]),
    ];
    let (unconflicted, conflicted) = separate(&sets);
    assert_eq!(test_state_of(&unconflicted), expected_state(&[("m.room.topic", "", "$t")]));
    assert_eq!(conflicted.len(), 1);
    assert_eq!(
        conflicted.get(&StateEventType::new("m.room.topic").with_state_key("x")),
        Some(&strings(&["$x", "$y"]))
    );
}

#[test]
fn auth_chain_diff_is_what_is_in_some_chains_but_not_all() {
    let chains = vec![
        id_set_of(&["$a", "$b", "$c"]),
        id_set_of(&["$b", "$c", "$d"]),
        id_set_of(&["$c", "$b", "$e"]),
    ];
    assert_eq!(sorted_elements(&get_auth_chain_diff(&chains)), strings(&["$a", "$d", "$e"]));

    // One chain alone has no difference, and no chains have none either.
    assert!(get_auth_chain_diff(&vec![id_set_of(&["$a"])]).is_empty());
    assert!(get_auth_chain_diff(&vec![]).is_empty());

    // An empty chain puts everything else into the difference.
    let chains = vec![id_set_of(&["$a", "$b"]), id_set_of(&[])];
    assert_eq!(sorted_elements(&get_auth_chain_diff(&chains)), strings(&["$a", "$b"]));
}

#[test]
fn power_events_are_control_events() {
    let member = |sender: &str, target: &str, content: &str| {
        event("$m", sender, TimelineEventType::room_member(), Some(target), content, &[], 0)
    };
    // A kick and a ban are control events, a leave of one's own is not.
    assert!(is_power_event(&member("@alice:foo", "@bob:foo", r#"{"membership":"leave"}"#)));
    assert!(is_power_event(&member("@alice:foo", "@bob:foo", r#"{"membership":"ban"}"#)));
    assert!(!is_power_event(&member("@bob:foo", "@bob:foo", r#"{"membership":"leave"}"#)));
    assert!(!is_power_event(&member("@bob:foo", "@bob:foo", r#"{"membership":"ban"}"#)));
    assert!(!is_power_event(&member("@alice:foo", "@bob:foo", r#"{"membership":"join"}"#)));
    assert!(!is_power_event(&member("@alice:foo", "@bob:foo", r#"{"membership":"invite"}"#)));
    // Content that is no member content makes no control event.
    assert!(!is_power_event(&member("@alice:foo", "@bob:foo", r#"{"reason":"none"}"#)));
    assert!(!is_power_event(&member("@alice:foo", "@bob:foo", "not json")));
    // A member event without a state key differs from its sender in any case.
    let keyless = event(
        "$m",
        "@alice:foo",
        TimelineEventType::room_member(),
        None,
        r#"{"membership":"leave"}"#,
        &[],
        0,
    );
    assert!(is_power_event(&keyless));

    for kind in [
        TimelineEventType::room_power_levels(),
        TimelineEventType::room_join_rules(),
        TimelineEventType::room_create(),
    ] {
        assert!(is_power_event(&event("$e", "@alice:foo", kind.clone(), Some(""), "{}", &[], 0)));
        assert!(!is_power_event(&event("$e", "@alice:foo", kind.clone(), Some("x"), "{}", &[], 0)));
        assert!(!is_power_event(&event("$e", "@alice:foo", kind, None, "{}", &[], 0)));
    }
    assert!(!is_power_event(&event("$e", "@alice:foo", topic(), Some(""), "{}", &[], 0)));
    assert!(!is_power_event(&event(
        "$e",
        "@alice:foo",
        TimelineEventType::room_third_party_invite(),
        Some(""),
        "{}",
        &[],
        0
    )));
}

#[test]
fn power_event_id_needs_a_known_event() {
    let store = store_of(vec![
        event("$p", "@alice:foo", TimelineEventType::room_power_levels(), Some(""), "{}", &[], 0),
        event("$t", "@alice:foo", topic(), Some(""), "{}", &[], 0),
    ]);
    assert!(is_power_event_id(&"$p".to_owned(), &store));
    assert!(!is_power_event_id(&"$t".to_owned(), &store));
    assert!(!is_power_event_id(&"$unknown".to_owned(), &store));
}

#[test]
fn type_and_key_must_both_match() {
    let ev = event("$p", "@alice:foo", TimelineEventType::room_power_levels(), Some(""), "{}", &[], 0);
    assert!(is_type_and_key(&ev, &TimelineEventType::room_power_levels(), ""));
    assert!(!is_type_and_key(&ev, &TimelineEventType::room_power_levels(), "x"));
    assert!(!is_type_and_key(&ev, &TimelineEventType::room_member(), ""));
    let keyless = event("$p", "@alice:foo", TimelineEventType::room_power_levels(), None, "{}", &[], 0);
    assert!(!is_type_and_key(&keyless, &TimelineEventType::room_power_levels(), ""));
}

#[test]
fn with_state_key_keeps_the_type_name() {
    let key = TimelineEventType::room_member().with_state_key("@a:foo");
    assert_eq!(key.0.name, "m.room.member");
    assert_eq!(key.1, "@a:foo");
    let key = (&TimelineEventType::new("m.room.message")).with_state_key("");
    assert_eq!((key.0.name.as_str(), key.1.as_str()), ("m.room.message", ""));
    let key = StateEventType::room_create().with_state_key("");
    assert_eq!(key.0, StateEventType::new("m.room.create"));
    let kind = StateEventType::room_join_rules();
    assert_eq!((&kind).with_state_key("k"), (StateEventType::new("m.room.join_rules"), "k".to_owned()));
    assert_eq!(TimelineEventType::room_third_party_invite().name, "m.room.third_party_invite");
    assert_eq!(TimelineEventType::room_power_levels().name, "m.room.power_levels");
}

fn power_store(power_content: &str) -> EventStore {
    store_of(vec![
        event("$c", "@alice:foo", TimelineEventType::room_create(), Some(""), "{}", &[], 0),
        event(
            "$p",
            "@alice:foo",
            TimelineEventType::room_power_levels(),
            Some(""),
            power_content,
            &["$c"],
            1,
        ),
        event("$ta", "@alice:foo", topic(), Some(""), "{}", &["$missing", "$c", "$p"], 2),
        event("$tb", "@bob:foo", topic(), Some(""), "{}", &["$c", "$p"], 3),
        event("$tc", "@carol:foo", topic(), Some(""), "{}", &["$c"], 4),
    ])
}

#[test]
fn power_level_of_the_sender() {
    let store =
        power_store(r#"{"users":{"@alice:foo":100,"@dave:foo":-5},"users_default":7}"#);
    // The level that the power-levels event lists for the sender.
    assert_eq!(get_power_level_for_sender(&"$ta".to_owned(), &store).unwrap(), 100);
    // The default of the power-levels event for a sender that it does not list.
    assert_eq!(get_power_level_for_sender(&"$tb".to_owned(), &store).unwrap(), 7);
    // Zero without a power-levels event among the auth events.
    assert_eq!(get_power_level_for_sender(&"$tc".to_owned(), &store).unwrap(), 0);
    assert_eq!(get_power_level_for_sender(&"$c".to_owned(), &store).unwrap(), 0);
    // Zero for an event that is not known.
    assert_eq!(get_power_level_for_sender(&"$unknown".to_owned(), &store).unwrap(), 0);
}

#[test]
fn power_level_defaults_to_zero_where_no_default_is_given() {
    let store = power_store(r#"{"users":{"@alice:foo":50}}"#);
    assert_eq!(get_power_level_for_sender(&"$ta".to_owned(), &store).unwrap(), 50);
    assert_eq!(get_power_level_for_sender(&"$tb".to_owned(), &store).unwrap(), 0);
}

#[test]
fn power_level_of_unparsable_power_levels_is_an_error() {
    let store = power_store(r#"{"users":"everyone"}"#);
    assert!(matches!(
        get_power_level_for_sender(&"$ta".to_owned(), &store),
        Err(Error::SerdeJson(_))
    ));
    // An event that does not cite the power levels is not touched by that.
    assert_eq!(get_power_level_for_sender(&"$tc".to_owned(), &store).unwrap(), 0);
}

#[test]
fn event_ids_are_ordered_by_their_bytes() {
    let less = |a: &str, b: &str| id_less(&a.to_owned(), &b.to_owned());
    assert!(less("$a:foo", "$b:foo"));
    assert!(!less("$b:foo", "$a:foo"));
    assert!(!less("$a:foo", "$a:foo"));
    // A prefix comes first.
    assert!(less("$a", "$a:foo"));
    assert!(less("", "$"));
    // Upper case comes before lower case, and all of ASCII before the rest.
    assert!(less("$B", "$a"));
    assert!(less("$z", "$é"));
    assert!(less("$é", "$日"));
}

#[test]
fn sort_keys_go_by_rank_then_timestamp_then_id() {
    let key = |rank: i128, ts: u64, id: &str| SortKey { rank, ts, id: id.to_owned() };
    assert!(key(-100, 9, "$z").less(&key(-50, 0, "$a")));
    assert!(key(0, 1, "$z").less(&key(0, 2, "$a")));
    assert!(key(0, 1, "$a").less(&key(0, 1, "$b")));
    assert!(!key(0, 1, "$b").less(&key(0, 1, "$a")));
    assert!(!key(0, 1, "$a").less(&key(0, 1, "$a")));
    let keys = vec![key(3, 0, "$a"), key(1, 5, "$c"), key(1, 5, "$b"), key(2, 0, "$d")];
    assert_eq!(least_index(&keys), 2);
}

fn keyed(keys: &'static [(&'static str, i64, u64)]) -> impl Fn(&String) -> Result<(i64, u64), Error> {
    move |id: &String| match keys.iter().find(|(name, _, _)| name == id) {
        Some((_, power, ts)) => Ok((*power, *ts)),
        None => Err(Error::NotFound(id.clone())),
    }
}

#[test]
fn topological_sort_breaks_ties_by_power_then_age_then_id() {
    let graph = graph_of(&[("$e", &[]), ("$d", &[]), ("$c", &[]), ("$b", &[]), ("$a", &[])]);
    let order = lexicographical_topological_sort(
        &graph,
        &keyed(&[("$a", 0, 5), ("$b", 50, 9), ("$c", 100, 7), ("$d", 100, 3), ("$e", 50, 9)]),
    )
    .unwrap();
    // Higher power first, then the older event, then the lesser id.
    assert_eq!(order, strings(&["$d", "$c", "$b", "$e", "$a"]));
}

#[test]
fn topological_sort_puts_parents_before_children() {
    // The child has by far the better key, and still comes after its parents.
    let graph =
        graph_of(&[("$child", &["$pa", "$pb"]), ("$pa", &["$root"]), ("$pb", &[]), ("$root", &[])]);
    let order = lexicographical_topological_sort(
        &graph,
        &keyed(&[("$child", 100, 0), ("$pa", 0, 9), ("$pb", 0, 8), ("$root", 0, 10)]),
    )
    .unwrap();
    assert_eq!(order, strings(&["$pb", "$root", "$pa", "$child"]));
}

#[test]
fn topological_sort_equal_keys_go_by_id() {
    let graph = graph_of(&[("$c", &[]), ("$a", &[]), ("$b", &[])]);
    let order = lexicographical_topological_sort(
        &graph,
        &keyed(&[("$a", 1, 1), ("$b", 1, 1), ("$c", 1, 1)]),
    )
    .unwrap();
    assert_eq!(order, strings(&["$a", "$b", "$c"]));
}

#[test]
fn topological_sort_of_a_malformed_graph_is_an_error() {
    let unsorted = |graph: &EventGraph| {
        let result = lexicographical_topological_sort(graph, &|_id: &String| Ok((0, 0)));
        matches!(
            result,
            Err(Error::InvalidPdu(reason)) if reason == "Event graph cannot be sorted to the end"
        )
    };
    // A parent that is no node of the graph.
    assert!(unsorted(&graph_of(&[("$a", &[]), ("$x", &["$nowhere"])])));
    // A cycle, and a node that hangs on it.
    assert!(unsorted(&graph_of(&[("$a", &[]), ("$y", &["$z"]), ("$z", &["$y"])])));
    assert!(unsorted(&graph_of(&[("$y", &["$y"])])));
    assert!(unsorted(&graph_of(&[("$a", &[]), ("$y", &["$y"]), ("$w", &["$a", "$y"])])));

    let empty: EventGraph = VecMap::new();
    assert!(lexicographical_topological_sort(&empty, &|_id: &String| Ok((0, 0))).unwrap().is_empty());
}

#[test]
fn topological_sort_hands_on_the_error_of_the_key_function() {
    let graph = graph_of(&[("$a", &[]), ("$b", &["$a"])]);
    // The key of "$b" is asked for when "$a" has been emitted.
    let result = lexicographical_topological_sort(&graph, &keyed(&[("$a", 0, 0)]));
    assert!(matches!(result, Err(Error::NotFound(id)) if id == "$b"));
    // A node that never gets ready is never asked for.
    let graph = graph_of(&[("$a", &[]), ("$b", &["$nowhere"])]);
    let result = lexicographical_topological_sort(&graph, &keyed(&[("$a", 0, 0)]));
    assert!(matches!(result, Err(Error::InvalidPdu(_))));
}

#[test]
fn graph_follows_auth_events_inside_the_difference_only() {
    let store = store_of(vec![
        event("$a", "@alice:foo", topic(), Some(""), "{}", &["$b", "$c", "$out"], 0),
        event("$b", "@alice:foo", topic(), Some(""), "{}", &["$d", "$b"], 1),
        event("$c", "@alice:foo", topic(), Some(""), "{}", &["$d"], 2),
        event("$d", "@alice:foo", topic(), Some(""), "{}", &["$e"], 3),
        event("$out", "@alice:foo", topic(), Some(""), "{}", &["$d"], 4),
    ]);
    let diff = id_set_of(&["$b", "$c", "$d", "$gone"]);
    let mut graph: EventGraph = VecMap::new();
    add_event_and_auth_chain_to_graph(&mut graph, "$a".to_owned(), &diff, &store);
    let edges = graph_edges(&graph);
    assert_eq!(
        edges,
        [
            ("$a", vec!["$b", "$c"]),
            ("$b", vec!["$b", "$d"]),
            ("$c", vec!["$d"]),
            ("$d", vec![]),
        ]
        .into_iter()
        .map(|(node, parents)| (node.to_owned(), strings(&parents)))
        .collect::<BTreeMap<_, _>>()
    );

    // A seed that is not known is a node without edges; what is there stays.
    add_event_and_auth_chain_to_graph(&mut graph, "$gone".to_owned(), &diff, &store);
    let edges = graph_edges(&graph);
    assert_eq!(edges.len(), 5);
    assert_eq!(edges.get("$gone"), Some(&vec![]));
    assert_eq!(edges.get("$a"), Some(&strings(&["$b", "$c"])));
}

#[test]
fn control_events_are_sorted_by_the_power_of_their_senders() {
    let store = store_of(vec![
        event(
            "$p",
            "@alice:foo",
            TimelineEventType::room_power_levels(),
            Some(""),
            r#"{"users":{"@alice:foo":100,"@bob:foo":50}}"#,
            &[],
            0,
        ),
        event("$b1", "@bob:foo", TimelineEventType::room_join_rules(), Some(""), "{}", &["$p"], 1),
        event("$a1", "@alice:foo", TimelineEventType::room_join_rules(), Some(""), "{}", &["$p"], 5),
        event("$a0", "@alice:foo", TimelineEventType::room_join_rules(), Some(""), "{}", &["$p"], 5),
        event("$c1", "@carol:foo", TimelineEventType::room_join_rules(), Some(""), "{}", &["$p"], 0),
        event("$b2", "@bob:foo", TimelineEventType::room_join_rules(), Some(""), "{}", &["$b1", "$p"], 0),
    ]);
    let diff = id_set_of(&["$b1", "$b2", "$a0", "$a1", "$c1"]);
    let sorted = reverse_topological_power_sort(
        strings(&["$b2", "$c1", "$a1", "$a0"]),
        &diff,
        &store,
    )
    .unwrap();
    // "$b1" comes in as an auth event of "$b2" and goes before it.
    assert_eq!(sorted, strings(&["$a0", "$a1", "$b1", "$b2", "$c1"]));
}

#[test]
fn control_events_with_unparsable_power_levels_are_an_error() {
    let store = store_of(vec![
        event(
            "$p",
            "@alice:foo",
            TimelineEventType::room_power_levels(),
            Some(""),
            r#"{"users":5}"#,
            &[],
            0,
        ),
        event("$j", "@alice:foo", TimelineEventType::room_join_rules(), Some(""), "{}", &["$p"], 1),
    ]);
    let result = reverse_topological_power_sort(strings(&["$j"]), &id_set_of(&["$j"]), &store);
    assert!(matches!(result, Err(Error::SerdeJson(_))));
}

#[test]
fn control_events_that_are_not_known_are_an_error() {
    let store = EventStore::new();
    let result = reverse_topological_power_sort(strings(&["$j"]), &id_set_of(&["$j"]), &store);
    assert!(matches!(result, Err(Error::NotFound(id)) if id.is_empty()));
}

fn mainline_store() -> EventStore {
    store_of(vec![
        event("$pa", "@alice:foo", TimelineEventType::room_power_levels(), Some(""), "{}", &[], 0),
        event("$pb", "@alice:foo", TimelineEventType::room_power_levels(), Some(""), "{}", &["$pa"], 1),
        event(
            "$pc",
            "@alice:foo",
            TimelineEventType::room_power_levels(),
            Some(""),
            "{}",
            &["$t0", "$pb"],
            2,
        ),
        // A power-levels event off the mainline.
        event("$px", "@bob:foo", TimelineEventType::room_power_levels(), Some(""), "{}", &["$pa"], 3),
        event("$t0", "@alice:foo", topic(), Some(""), "{}", &[], 10),
        event("$t1", "@alice:foo", topic(), Some(""), "{}", &["$pa"], 20),
        event("$t2", "@alice:foo", topic(), Some(""), "{}", &["$pb"], 9),
        event("$t3", "@alice:foo", topic(), Some(""), "{}", &["$pc"], 8),
        event("$t3b", "@alice:foo", topic(), Some(""), "{}", &["$pc"], 8),
        event("$tx", "@alice:foo", topic(), Some(""), "{}", &["$px"], 7),
        event("$lost", "@alice:foo", topic(), Some(""), "{}", &["$nowhere", "$pc"], 1),
    ])
}

#[test]
fn mainline_depth_counts_from_the_oldest_power_levels() {
    let store = mainline_store();
    let mut mainline_map: VecMap<String, usize> = VecMap::new();
    mainline_map.insert("$pc".to_owned(), 2);
    mainline_map.insert("$pb".to_owned(), 1);
    mainline_map.insert("$pa".to_owned(), 0);
    let depth = |id: &str| get_mainline_depth(store.fetch(&id.to_owned()), &mainline_map, &store);
    assert_eq!(depth("$pc").unwrap(), 2);
    assert_eq!(depth("$t3").unwrap(), 2);
    assert_eq!(depth("$t2").unwrap(), 1);
    assert_eq!(depth("$t1").unwrap(), 0);
    // Through a power-levels event off the mainline to the mainline.
    assert_eq!(depth("$tx").unwrap(), 0);
    // Without a power-levels event among the auth events the depth is zero.
    assert_eq!(depth("$t0").unwrap(), 0);
    assert_eq!(get_mainline_depth(None, &mainline_map, &store).unwrap(), 0);
    // An auth event that is not known is an error.
    assert!(matches!(depth("$lost"), Err(Error::NotFound(id)) if id == "$nowhere"));
}

#[test]
fn mainline_sort_orders_by_depth_then_timestamp_then_id() {
    let store = mainline_store();
    let to_sort = strings(&["$t3b", "$tx", "$t0", "$t3", "$t1", "$t2", "$t3"]);
    let sorted = mainline_sort(&to_sort, Some("$pc".to_owned()), &store).unwrap();
    // Depth zero: "$tx" (7), "$t0" (10), "$t1" (20); depth one: "$t2"; depth two: "$t3"
    // and "$t3b" with equal timestamps. An id that is given twice is sorted once.
    assert_eq!(sorted, strings(&["$tx", "$t0", "$t1", "$t2", "$t3", "$t3b"]));
}

#[test]
fn mainline_sort_gives_up_on_events_that_cannot_be_sorted() {
    let store = mainline_store();
    let sort = |ids: &[&str]| mainline_sort(&strings(ids), Some("$pc".to_owned()), &store);
    // An event that is not known.
    assert!(matches!(
        sort(&["$t1", "$unknown", "$t2"]),
        Err(Error::NotFound(id)) if id == "$unknown"
    ));
    // An auth event that is not known on the way to the depth.
    assert!(matches!(sort(&["$t1", "$lost"]), Err(Error::NotFound(id)) if id == "$nowhere"));
    // Of several such events the one with the least id decides, in whatever order.
    assert!(matches!(
        sort(&["$unknown", "$t1", "$lost", "$gone"]),
        Err(Error::NotFound(id)) if id == "$gone"
    ));
    assert!(matches!(
        sort(&["$lost", "$gone", "$unknown"]),
        Err(Error::NotFound(id)) if id == "$gone"
    ));
    assert!(matches!(
        sort(&["$unknown", "$lost"]),
        Err(Error::NotFound(id)) if id == "$nowhere"
    ));
    assert!(matches!(
        sort(&["$lost", "$unknown", "$lost"]),
        Err(Error::NotFound(id)) if id == "$nowhere"
    ));
    // The same without a resolved power-levels event.
    let result = mainline_sort(&strings(&["$t1", "$unknown"]), None, &store);
    assert!(matches!(result, Err(Error::NotFound(id)) if id == "$unknown"));
}

#[test]
fn mainline_sort_without_power_levels_orders_by_timestamp_then_id() {
    let store = mainline_store();
    let to_sort = strings(&["$t3b", "$t1", "$t3", "$t2", "$tx", "$t0"]);
    let sorted = mainline_sort(&to_sort, None, &store).unwrap();
    assert_eq!(sorted, strings(&["$tx", "$t3", "$t3b", "$t2", "$t0", "$t1"]));
}

#[test]
fn mainline_sort_of_nothing_is_nothing() {
    // Not even a resolved power-levels event that is not known is looked at.
    let sorted = mainline_sort(&vec![], Some("$unknown".to_owned()), &EventStore::new()).unwrap();
    assert!(sorted.is_empty());
}

#[test]
fn mainline_sort_needs_the_power_levels_to_be_known() {
    let store = mainline_store();
    let result = mainline_sort(&strings(&["$t1"]), Some("$unknown".to_owned()), &store);
    assert!(matches!(result, Err(Error::NotFound(id)) if id == "$unknown"));

    // The same for an auth event of a power-levels event on the way.
    let store = store_of(vec![
        event("$p", "@alice:foo", TimelineEventType::room_power_levels(), Some(""), "{}", &["$gone"], 0),
        event("$t", "@alice:foo", topic(), Some(""), "{}", &[], 0),
    ]);
    let result = mainline_sort(&strings(&["$t"]), Some("$p".to_owned()), &store);
    assert!(matches!(result, Err(Error::NotFound(id)) if id == "$gone"));
}

#[test]
fn mainline_that_runs_in_a_circle_is_an_error() {
    let store = store_of(vec![
        event("$pa", "@alice:foo", TimelineEventType::room_power_levels(), Some(""), "{}", &["$pb"], 0),
        event("$pb", "@alice:foo", TimelineEventType::room_power_levels(), Some(""), "{}", &["$pa"], 1),
        event("$t", "@alice:foo", topic(), Some(""), "{}", &["$pa"], 2),
    ]);
    let result = mainline_sort(&strings(&["$t"]), Some("$pa".to_owned()), &store);
    assert!(
        matches!(result, Err(Error::InvalidPdu(reason)) if reason == "Power level events form a cycle")
    );
    // Off the mainline the depth of such an event cannot be told either.
    let result = mainline_sort(&strings(&["$t"]), None, &store);
    assert!(
        matches!(result, Err(Error::InvalidPdu(reason)) if reason == "Power level events form a cycle")
    );
}

#[test]
fn iterative_auth_check_files_what_is_accepted() {
    let store = store_of(vec![
        event("$t1", "@alice:foo", topic(), Some(""), "{}", &[], 0),
        event("$n1", "@alice:foo", TimelineEventType::new("m.room.name"), Some(""), "{}", &[], 1),
        event("$t2", "@alice:foo", topic(), Some(""), "{}", &[], 2),
    ]);
    let rules = RoomVersion::new(&RoomVersionId::V6).unwrap();
    let start = || state_map_of(&[("m.room.create", "", "$c"), ("m.room.topic", "", "$t0")]);
    let ids = strings(&["$t1", "$n1", "$t2"]);

    let state =
        iterative_auth_check(&rules, &ids, start(), &store, &no_auth_types, &accept_all).unwrap();
    assert_eq!(
        test_state_of(&state),
        expected_state(&[
            ("m.room.create", "", "$c"),
            ("m.room.topic", "", "$t2"),
            ("m.room.name", "", "$n1")
        ])
    );

    // An event that is rejected is left out, and nothing else changes.
    let state =
        iterative_auth_check(&rules, &ids, start(), &store, &no_auth_types, &reject_topics).unwrap();
    assert_eq!(
        test_state_of(&state),
        expected_state(&[
            ("m.room.create", "", "$c"),
            ("m.room.topic", "", "$t0"),
            ("m.room.name", "", "$n1")
        ])
    );

    let state =
        iterative_auth_check(&rules, &vec![], start(), &store, &no_auth_types, &reject_all).unwrap();
    assert_eq!(
        test_state_of(&state),
        expected_state(&[("m.room.create", "", "$c"), ("m.room.topic", "", "$t0")])
    );
}

#[test]
fn iterative_auth_check_gives_up_on_malformed_events() {
    let store = store_of(vec![
        event("$t1", "@alice:foo", topic(), Some(""), "{}", &[], 0),
        event("$msg", "@alice:foo", TimelineEventType::new("m.room.message"), None, "{}", &[], 1),
        event("$t2", "@alice:foo", topic(), Some(""), "{}", &["$msg"], 2),
        event("$t3", "@alice:foo", topic(), Some(""), "{}", &["$unknown"], 3),
    ]);
    let rules = RoomVersion::new(&RoomVersionId::V6).unwrap();
    let check = |ids: &[&str]| {
        iterative_auth_check(&rules, &strings(ids), VecMap::new(), &store, &no_auth_types, &accept_all)
    };
    assert!(matches!(check(&["$t1", "$gone"]), Err(Error::NotFound(id)) if id == "$gone"));
    assert!(matches!(
        check(&["$msg"]),
        Err(Error::InvalidPdu(reason)) if reason == "State event had no state key"
    ));
    // An auth event without a state key is as bad, and so is one that is not known.
    assert!(matches!(check(&["$t2"]), Err(Error::InvalidPdu(_))));
    assert!(matches!(check(&["$t3"]), Err(Error::NotFound(id)) if id == "$unknown"));
    // An event of the resolved state that is needed and not known is an error too.
    let result = iterative_auth_check(
        &rules,
        &strings(&["$t1"]),
        state_map_of(&[("m.room.power_levels", "", "$nowhere")]),
        &store,
        &power_levels_needed,
        &accept_all,
    );
    assert!(matches!(result, Err(Error::NotFound(id)) if id == "$nowhere"));
    // Where it is not needed it is not looked at.
    let result = iterative_auth_check(
        &rules,
        &strings(&["$t1"]),
        state_map_of(&[("m.room.power_levels", "", "$nowhere")]),
        &store,
        &no_auth_types,
        &accept_all,
    );
    assert_eq!(result.unwrap().len(), 2);
    // What the rules answer with an error for is an error.
    let result = iterative_auth_check(
        &rules,
        &strings(&["$t1"]),
        VecMap::new(),
        &store,
        &failing_auth_types,
        &accept_all,
    );
    assert!(matches!(result, Err(Error::InvalidPdu(reason)) if reason == "no auth types"));
}

#[test]
fn iterative_auth_check_lays_the_resolved_state_over_the_auth_events() {
    let store = store_of(vec![
        event("$pa", "@alice:foo", TimelineEventType::room_power_levels(), Some(""), "1", &[], 0),
        event("$pb", "@alice:foo", TimelineEventType::room_power_levels(), Some(""), "2", &[], 1),
        event(
            "$inv",
            "@alice:foo",
            TimelineEventType::room_third_party_invite(),
            Some("token"),
            "{}",
            &[],
            2,
        ),
        event("$t", "@alice:foo", topic(), Some(""), "{}", &["$pa", "$inv"], 3),
    ]);
    let rules = RoomVersion::new(&RoomVersionId::V6).unwrap();
    // Accepts exactly where the power levels in the context are those of "$pb" and the
    // third-party invite is handed over.
    let wants_p2 = |_: &RoomVersion,
                    _: &Event,
                    third_party: Option<&Event>,
                    context: &StateMap<&Event>|
     -> Result<bool, Error> {
        let power = context.get(&StateEventType::room_power_levels().with_state_key(""));
        Ok(power.map(|ev| ev.event_id.as_str()) == Some("$pb")
            && third_party.map(|ev| ev.event_id.as_str()) == Some("$inv")
            && context.len() == 2)
    };
    let resolved = || state_map_of(&[("m.room.power_levels", "", "$pb")]);
    let state = iterative_auth_check(
        &rules,
        &strings(&["$t"]),
        resolved(),
        &store,
        &power_levels_needed,
        &wants_p2,
    )
    .unwrap();
    assert_eq!(state.len(), 2);
    // Without the power levels among the needed state the auth event "$pa" stays.
    let state =
        iterative_auth_check(&rules, &strings(&["$t"]), resolved(), &store, &no_auth_types, &wants_p2)
            .unwrap();
    assert_eq!(state.len(), 1);
}

fn resolve_with(
    version: &RoomVersionId,
    sets: &Vec<StateMap<String>>,
    chains: &Vec<EventIdSet>,
    store: &EventStore,
    accept: bool,
) -> Result<TestState, Error> {
    let resolved = if accept {
        resolve(version, sets, chains, store, &no_auth_types, &accept_all)
    } else {
        resolve(version, sets, chains, store, &no_auth_types, &reject_all)
    };
    resolved.map(|state| test_state_of(&state))
}

fn forked_room() -> (Vec<Event>, Vec<Vec<(&'static str, &'static str, &'static str)>>) {
    let events = vec![
        event("$c", "@alice:foo", TimelineEventType::room_create(), Some(""), "{}", &[], 0),
        event(
            "$p",
            "@alice:foo",
            TimelineEventType::room_power_levels(),
            Some(""),
            r#"{"users":{"@alice:foo":100}}"#,
            &["$c"],
            1,
        ),
        event("$t1", "@alice:foo", topic(), Some(""), "{}", &["$c", "$p"], 5),
        event("$t2", "@bob:foo", topic(), Some(""), "{}", &["$c", "$p"], 4),
        event("$n", "@bob:foo", TimelineEventType::new("m.room.name"), Some(""), "{}", &["$c", "$p"], 6),
    ];
    let sets = vec![
        vec![("m.room.create", "", "$c"), ("m.room.power_levels", "", "$p"), ("m.room.topic", "", "$t1")],
        vec![
            ("m.room.create", "", "$c"),
            ("m.room.power_levels", "", "$p"),
            ("m.room.topic", "", "$t2"),
            ("m.room.name", "", "$n"),
        ],
    ];
    (events, sets)
}

fn chains_of(sets: &[Vec<(&str, &str, &str)>]) -> Vec<EventIdSet> {
    sets.iter()
        .map(|set| {
            let mut ids = set.iter().map(|(_, _, id)| *id).collect::<Vec<_>>();
            ids.push("$c");
            ids.push("$p");
            id_set_of(&ids)
        })
        .collect()
}

#[test]
fn resolve_takes_the_later_of_two_accepted_events() {
    let (events, sets) = forked_room();
    let chains = chains_of(&sets);
    let store = store_of(events);
    let state_sets = sets.iter().map(|set| state_map_of(set)).collect::<Vec<_>>();
    let resolved = resolve_with(&RoomVersionId::V6, &state_sets, &chains, &store, true).unwrap();
    // Both topics have depth zero on the mainline of "$p"; "$t2" is the older one, so
    // "$t1" is checked last and stays.
    assert_eq!(
        resolved,
        expected_state(&[
            ("m.room.create", "", "$c"),
            ("m.room.power_levels", "", "$p"),
            ("m.room.topic", "", "$t1"),
            ("m.room.name", "", "$n"),
        ])
    );
}

#[test]
fn resolve_keeps_the_unconflicted_state_whatever_the_rules_say() {
    let (events, sets) = forked_room();
    let chains = chains_of(&sets);
    let store = store_of(events);
    let state_sets = sets.iter().map(|set| state_map_of(set)).collect::<Vec<_>>();
    let resolved = resolve_with(&RoomVersionId::V6, &state_sets, &chains, &store, false).unwrap();
    // Every conflicted event is rejected; their keys are gone from the state.
    assert_eq!(
        resolved,
        expected_state(&[("m.room.create", "", "$c"), ("m.room.power_levels", "", "$p")])
    );
}

#[test]
fn resolve_does_not_depend_on_the_order_of_the_state_sets() {
    let (events, sets) = forked_room();
    let store = store_of(events);
    let forward = sets.iter().map(|set| state_map_of(set)).collect::<Vec<_>>();
    let backward = sets
        .iter()
        .rev()
        .map(|set| {
            let mut entries = set.clone();
            entries.reverse();
            state_map_of(&entries)
        })
        .collect::<Vec<_>>();
    let mut backward_sets = sets.clone();
    backward_sets.reverse();
    let one = resolve_with(&RoomVersionId::V6, &forward, &chains_of(&sets), &store, true).unwrap();
    let other =
        resolve_with(&RoomVersionId::V6, &backward, &chains_of(&backward_sets), &store, true)
            .unwrap();
    assert_eq!(one, other);
}

#[test]
fn resolve_of_a_single_state_set_is_that_state_set() {
    let (events, sets) = forked_room();
    let store = store_of(events);
    let single = vec![state_map_of(&sets[1])];
    // Not even an unknown room version matters where nothing is in conflict.
    let resolved = resolve_with(
        &RoomVersionId::Other("none".to_owned()),
        &single,
        &chains_of(&sets[1..]),
        &EventStore::new(),
        false,
    )
    .unwrap();
    assert_eq!(resolved, expected_state(&sets[1]));

    // Resolving what was resolved changes nothing.
    let state_sets = sets.iter().map(|set| state_map_of(set)).collect::<Vec<_>>();
    let first = resolve(
        &RoomVersionId::V6,
        &state_sets,
        &chains_of(&sets),
        &store,
        &no_auth_types,
        &accept_all,
    )
    .unwrap();
    let expected = test_state_of(&first);
    let again =
        resolve(&RoomVersionId::V6, &vec![first], &vec![], &store, &no_auth_types, &reject_all)
            .unwrap();
    assert_eq!(test_state_of(&again), expected);
}

#[test]
fn resolve_without_conflict_is_the_unconflicted_state() {
    let set = [("m.room.create", "", "$c"), ("m.room.topic", "", "$t")];
    let state_sets = vec![state_map_of(&set), state_map_of(&set), state_map_of(&set)];
    let chains = vec![id_set_of(&["$c"]), id_set_of(&["$t"]), id_set_of(&[])];
    let resolved =
        resolve_with(&RoomVersionId::V1, &state_sets, &chains, &EventStore::new(), false).unwrap();
    assert_eq!(resolved, expected_state(&set));

    let nothing = resolve_with(&RoomVersionId::V1, &vec![], &vec![], &EventStore::new(), true);
    assert!(nothing.unwrap().is_empty());
}

#[test]
fn resolve_drops_conflicted_events_that_are_not_known() {
    let (mut events, sets) = forked_room();
    // Without "$t1" in the store only "$t2" is left to be checked.
    events.retain(|ev| ev.event_id != "$t1");
    let store = store_of(events);
    let state_sets = sets.iter().map(|set| state_map_of(set)).collect::<Vec<_>>();
    let resolved =
        resolve_with(&RoomVersionId::V6, &state_sets, &chains_of(&sets), &store, true).unwrap();
    assert_eq!(
        resolved,
        expected_state(&[
            ("m.room.create", "", "$c"),
            ("m.room.power_levels", "", "$p"),
            ("m.room.topic", "", "$t2"),
            ("m.room.name", "", "$n"),
        ])
    );
}

#[test]
fn resolve_of_an_unknown_room_version_is_an_error() {
    let (events, sets) = forked_room();
    let store = store_of(events);
    let state_sets = sets.iter().map(|set| state_map_of(set)).collect::<Vec<_>>();
    let result = resolve_with(
        &RoomVersionId::Other("org.example.1".to_owned()),
        &state_sets,
        &chains_of(&sets),
        &store,
        true,
    );
    assert!(matches!(result, Err(Error::Unsupported(version)) if version == "org.example.1"));
}

#[test]
fn room_versions_turn_their_rules_on_in_turn() {
    let rules = |version: RoomVersionId| RoomVersion::new(&version).unwrap();
    let v1 = rules(RoomVersionId::V1);
    assert!(matches!(v1.state_res, StateResolutionVersion::V1));
    assert!(matches!(v1.event_format, EventFormatVersion::V1));
    assert!(v1.special_case_aliases_auth && !v1.extra_redaction_checks && !v1.allow_knocking);
    assert!(matches!(rules(RoomVersionId::V2).state_res, StateResolutionVersion::V2));
    let v3 = rules(RoomVersionId::V3);
    assert!(matches!(v3.event_format, EventFormatVersion::V2) && v3.extra_redaction_checks);
    assert!(matches!(rules(RoomVersionId::V4).event_format, EventFormatVersion::V3));
    assert!(!rules(RoomVersionId::V4).enforce_key_validity);
    assert!(rules(RoomVersionId::V5).enforce_key_validity);
    let v6 = rules(RoomVersionId::V6);
    assert!(!v6.special_case_aliases_auth && v6.strict_canonicaljson);
    assert!(v6.limit_notifications_power_levels && !v6.allow_knocking);
    assert!(rules(RoomVersionId::V7).allow_knocking && !rules(RoomVersionId::V7).restricted_join_rules);
    assert!(rules(RoomVersionId::V8).restricted_join_rules);
    assert!(!rules(RoomVersionId::V9).knock_restricted_join_rule);
    let v10 = rules(RoomVersionId::V10);
    assert!(v10.knock_restricted_join_rule && v10.integer_power_levels && !v10.use_room_create_sender);
    assert!(rules(RoomVersionId::V11).use_room_create_sender);
    assert!(matches!(
        RoomVersion::new(&RoomVersionId::Other("x".to_owned())),
        Err(Error::Unsupported(version)) if version == "x"
    ));
}

#[test]
fn tables_keep_one_entry_for_each_key() {
    let mut map: VecMap<String, u64> = VecMap::new();
    assert!(map.is_empty());
    map.insert("b".to_owned(), 1);
    map.insert("a".to_owned(), 2);
    map.insert("b".to_owned(), 3);
    assert_eq!(map.len(), 2);
    assert_eq!(map.get(&"b".to_owned()), Some(&3));
    assert_eq!(map.get(&"c".to_owned()), None);
    assert!(map.contains_key(&"a".to_owned()) && !map.contains_key(&"c".to_owned()));
    // A key keeps the place of its first insertion.
    assert_eq!((map.key_at(0).as_str(), *map.value_at(0)), ("b", 3));
    assert_eq!(map.position(&"a".to_owned()), Some(1));

    let mut set: VecSet<String> = VecSet::new();
    assert!(set.insert("x".to_owned()));
    assert!(!set.insert("x".to_owned()));
    assert!(set.insert("y".to_owned()));
    assert_eq!(set.len(), 2);
    assert!(set.contains(&"y".to_owned()) && !set.contains(&"z".to_owned()));
    assert!(set.is_subset_of(&set));
    assert!(!set.is_subset_of(&VecSet::new()));
    assert_eq!(set.into_vec(), strings(&["x", "y"]));
}

#[test]
fn store_files_events_by_their_id() {
    let mut store = EventStore::new();
    assert_eq!(store.len(), 0);
    store.insert(event("$a", "@alice:foo", topic(), Some(""), "1", &[], 0));
    store.insert(event("$b", "@alice:foo", topic(), Some(""), "2", &[], 0));
    store.insert(event("$a", "@alice:foo", topic(), Some(""), "3", &[], 0));
    assert_eq!(store.len(), 2);
    assert_eq!(store.fetch(&"$a".to_owned()).unwrap().content, "3");
    assert!(store.event_exists(&"$b".to_owned()));
    assert!(!store.event_exists(&"$c".to_owned()));
    assert!(store.fetch(&"$c".to_owned()).is_none());
}

#[test]
fn all_equal_holds_of_equal_elements_and_of_none() {
    let a = "$a".to_owned();
    let also_a = "$a".to_owned();
    let b = "$b".to_owned();
    assert!(all_equal(&vec![]));
    assert!(all_equal(&vec![None]));
    assert!(all_equal(&vec![Some(&a)]));
    assert!(all_equal(&vec![Some(&a), Some(&also_a), Some(&a)]));
    assert!(all_equal(&vec![None, None]));
    assert!(!all_equal(&vec![Some(&a), Some(&b)]));
    assert!(!all_equal(&vec![Some(&a), Some(&a), Some(&b)]));
    assert!(!all_equal(&vec![Some(&a), None]));
    assert!(!all_equal(&vec![None, Some(&a), None]));
}

#[test]
fn unique_keeps_the_first_of_equal_keys() {
    let key = |kind: &str, state_key: &str| StateEventType::new(kind).with_state_key(state_key);
    let keys = vec![
        key("m.room.topic", ""),
        key("m.room.member", "@a:foo"),
        key("m.room.topic", ""),
        key("m.room.topic", "x"),
        key("m.room.member", "@a:foo"),
        key("m.room.member", ""),
    ];
    assert_eq!(
        unique(keys),
        vec![
            key("m.room.topic", ""),
            key("m.room.member", "@a:foo"),
            key("m.room.topic", "x"),
            key("m.room.member", ""),
        ]
    );
    assert!(unique(vec![]).is_empty());
}

#[test]
fn control_events_that_cite_each_other_are_an_error() {
    let store = store_of(vec![
        event("$j1", "@alice:foo", TimelineEventType::room_join_rules(), Some(""), "{}", &["$j2"], 0),
        event("$j2", "@alice:foo", TimelineEventType::room_join_rules(), Some(""), "{}", &["$j1"], 1),
    ]);
    let diff = id_set_of(&["$j1", "$j2"]);
    let result = reverse_topological_power_sort(strings(&["$j1"]), &diff, &store);
    assert!(matches!(
        result,
        Err(Error::InvalidPdu(reason)) if reason == "Event graph cannot be sorted to the end"
    ));
    // Outside the difference the edge does not count.
    let sorted =
        reverse_topological_power_sort(strings(&["$j1"]), &id_set_of(&["$j1"]), &store).unwrap();
    assert_eq!(sorted, strings(&["$j1"]));
}

#[test]
fn errors_say_what_went_wrong() {
    assert_eq!(Error::NotFound("$a:foo".to_owned()).message(), "Not found error: $a:foo");
    assert_eq!(
        Error::InvalidPdu("State event had no state key".to_owned()).message(),
        "Invalid PDU: State event had no state key"
    );
    assert_eq!(
        Error::Unsupported("12".to_owned()).message(),
        "The given option or version is unsupported: 12"
    );
    assert_eq!(Error::SerdeJson("expected value".to_owned()).message(), "expected value");
    assert_eq!(Error::not_found(&"$b".to_owned()).message(), "Not found error: $b");
    assert_eq!(Error::no_state_key().message(), "Invalid PDU: State event had no state key");
    assert_eq!(Error::auth_cycle().message(), "Invalid PDU: Power level events form a cycle");
    assert_eq!(
        Error::unsorted_graph().message(),
        "Invalid PDU: Event graph cannot be sorted to the end"
    );
}

#[test]
fn control_events_given_their_membership() {
    let member = |sender: &str, target: Option<&str>| {
        event("$m", sender, TimelineEventType::room_member(), target, "{}", &[], 0)
    };
    let given = |ev: &Event, membership: Option<&str>| {
        let membership = membership.map(|m| m.to_owned());
        is_power_event_with_membership(ev, membership.as_ref())
    };
    let kick = member("@alice:foo", Some("@bob:foo"));
    assert!(given(&kick, Some("leave")));
    assert!(given(&kick, Some("ban")));
    assert!(!given(&kick, Some("join")));
    assert!(!given(&kick, Some("knock")));
    assert!(!given(&kick, Some("Leave")));
    assert!(!given(&kick, Some("")));
    assert!(!given(&kick, None));
    let own = member("@bob:foo", Some("@bob:foo"));
    assert!(!given(&own, Some("leave")));
    assert!(!given(&own, Some("ban")));
    assert!(given(&member("@bob:foo", None), Some("ban")));
    // The membership does not matter for the other types.
    let power =
        event("$p", "@alice:foo", TimelineEventType::room_power_levels(), Some(""), "{}", &[], 0);
    assert!(given(&power, None));
    assert!(given(&power, Some("join")));
    let keyed_power =
        event("$p", "@alice:foo", TimelineEventType::room_power_levels(), Some("k"), "{}", &[], 0);
    assert!(!given(&keyed_power, Some("ban")));
    assert!(!given(&event("$t", "@alice:foo", topic(), Some(""), "{}", &[], 0), Some("ban")));
}

#[test]
fn power_level_given_the_fields() {
    let mut users: VecMap<String, i64> = VecMap::new();
    users.insert("@alice:foo".to_owned(), 100);
    users.insert("@bob:foo".to_owned(), -3);
    let fields = PowerLevelsContentFields { users, users_default: 12 };
    let by = |sender: &str| event("$e", sender, topic(), Some(""), "{}", &[], 0);
    assert_eq!(sender_level_with(Some(&by("@alice:foo")), &fields), 100);
    assert_eq!(sender_level_with(Some(&by("@bob:foo")), &fields), -3);
    assert_eq!(sender_level_with(Some(&by("@carol:foo")), &fields), 12);
    assert_eq!(sender_level_with(None, &fields), 12);
    assert_eq!(fields.level_of(&"@alice:foo".to_owned()), 100);
    assert_eq!(fields.level_of(&"@alice:bar".to_owned()), 12);
}

#[test]
fn verdicts_decide_what_is_filed() {
    let start = || state_map_of(&[("m.room.topic", "", "$old"), ("m.room.name", "", "$n")]);
    let file = |verdict: Result<bool, Error>| {
        apply_verdict(start(), &topic(), &"".to_owned(), &"$new".to_owned(), verdict)
    };
    assert_eq!(
        test_state_of(&file(Ok(true)).unwrap()),
        expected_state(&[("m.room.topic", "", "$new"), ("m.room.name", "", "$n")])
    );
    assert_eq!(
        test_state_of(&file(Ok(false)).unwrap()),
        expected_state(&[("m.room.topic", "", "$old"), ("m.room.name", "", "$n")])
    );
    assert!(matches!(
        file(Err(Error::InvalidPdu("bad".to_owned()))),
        Err(Error::InvalidPdu(reason)) if reason == "bad"
    ));
    // A new key is added.
    let state =
        apply_verdict(start(), &topic(), &"x".to_owned(), &"$new".to_owned(), Ok(true)).unwrap();
    assert_eq!(state.len(), 3);
}

#[test]
fn resolve_uses_an_event_that_does_not_exist_as_an_auth_event_only() {
    let (events, sets) = forked_room();
    let mut store = EventStore::new();
    for ev in events {
        // The power levels can be fetched, and that is all; so can one of the topics.
        if ev.event_id == "$p" || ev.event_id == "$t1" {
            store.insert_unverified(ev);
        } else {
            store.insert(ev);
        }
    }
    assert!(!store.event_exists(&"$p".to_owned()));
    assert!(store.fetch(&"$p".to_owned()).is_some());
    assert!(store.event_exists(&"$t2".to_owned()));
    let state_sets = sets.iter().map(|set| state_map_of(set)).collect::<Vec<_>>();
    // "$t1" is no candidate any more; "$t2" is checked, with "$p" among its auth events.
    let cites_power = |_: &RoomVersion,
                       event: &Event,
                       _: Option<&Event>,
                       context: &StateMap<&Event>|
     -> Result<bool, Error> {
        let power = context.get(&StateEventType::room_power_levels().with_state_key(""));
        Ok(power.map(|ev| ev.event_id.as_str()) == Some("$p") && event.event_id != "$t1")
    };
    let resolved = resolve(
        &RoomVersionId::V6,
        &state_sets,
        &chains_of(&sets),
        &store,
        &no_auth_types,
        &cites_power,
    )
    .unwrap();
    assert_eq!(
        test_state_of(&resolved),
        expected_state(&[
            ("m.room.create", "", "$c"),
            ("m.room.power_levels", "", "$p"),
            ("m.room.topic", "", "$t2"),
            ("m.room.name", "", "$n"),
        ])
    );
}

#[test]
fn resolve_keeps_every_key_but_those_without_an_event_that_exists() {
    let (events, sets) = forked_room();
    let state_sets = sets.iter().map(|set| state_map_of(set)).collect::<Vec<_>>();
    let keys = |state: &TestState| state.keys().cloned().collect::<Vec<_>>();
    let key = |kind: &str| (kind.to_owned(), "".to_owned());

    // With rules that accept every event the state has the keys of all the state sets.
    let all = store_of(events.clone());
    let resolved = resolve_with(&RoomVersionId::V6, &state_sets, &chains_of(&sets), &all, true);
    assert_eq!(
        keys(&resolved.unwrap()),
        vec![key("m.room.create"), key("m.room.name"), key("m.room.power_levels"), key("m.room.topic")]
    );

    // A conflicted key for which no event exists is gone.
    let mut store = EventStore::new();
    for ev in events {
        if ev.event_id == "$t1" {
            store.insert_unverified(ev);
        } else if ev.event_id != "$t2" {
            store.insert(ev);
        }
    }
    let resolved = resolve_with(&RoomVersionId::V6, &state_sets, &chains_of(&sets), &store, true);
    assert_eq!(
        keys(&resolved.unwrap()),
        vec![key("m.room.create"), key("m.room.name"), key("m.room.power_levels")]
    );
}
