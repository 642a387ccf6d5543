//! The channel filter.

use edge_ingest::channel_filter::{ChannelFilter, FilterError};
use edge_ingest::feeds::{Feed, FeedKind, FeedPorts, FeedPublisher, Registry};
use edge_ingest::model::ArbitrationMode;

fn row(code: &str, category: &str, publishers: Vec<FeedPublisher>) -> Feed {
    Feed {
        venue: "KALSHI".to_string(),
        category: category.to_string(),
        code: code.to_string(),
        kind: FeedKind::MarketByPrice,
        group: u32::from_be_bytes([233, 84, 178, 20]),
        publishers,
        emit_trades: true,
        arbitration: ArbitrationMode::Sticky,
        mirror_offset: None,
    }
}

/// A feed with a port per channel, from a base.
fn based_row(code: &str, category: &str, base: u16, channels: &[u8]) -> Feed {
    let pubs = channels
        .iter()
        .map(|&id| FeedPublisher {
            ports: FeedPorts::ThreePort {
                mktdata: base + u16::from(id),
                refdata: base + 10_000 + u16::from(id),
                snapshot: base + 20_000 + u16::from(id),
            },
            channel: Some(id),
            label: None,
        })
        .collect();
    row(code, category, pubs)
}

fn derived_row(code: &str, category: &str, channels: &[u8]) -> Feed {
    based_row(code, category, 33_000, channels)
}

/// A feed whose publishers bind a base flat.
fn flat_row(code: &str, category: &str) -> Feed {
    row(
        code,
        category,
        vec![FeedPublisher {
            ports: FeedPorts::TwoPort {
                mktdata: 7576,
                refdata: 7577,
            },
            channel: None,
            label: None,
        }],
    )
}

fn sports_feed() -> Feed {
    let mut channels: Vec<u8> = (10..40).collect();
    channels.push(49);
    based_row("edge-kalshi-sports-mbp", "sports", 34_000, &channels)
}

/// The loaded document: one feed of thirty-one channels, one flat feed.
fn loaded() -> Registry {
    Registry {
        rows: vec![flat_row("edge-kalshi-perps-tob", "perps"), sports_feed()],
    }
}

#[test]
fn an_empty_filter_admits_every_channel() {
    let f = ChannelFilter::parse(&loaded(), "").expect("empty is valid");
    assert!(f.admits("edge-kalshi-sports-mbp", 10));
    assert!(f.admits("edge-kalshi-sports-mbp", 49));
    assert!(f.admits("edge-kalshi-perps-tob", 2));
    assert!(f.is_empty());
}

#[test]
fn a_filter_on_one_feed_does_not_narrow_another() {
    let f = ChannelFilter::parse(&loaded(), "edge-kalshi-sports-mbp=10,11").unwrap();
    assert!(f.admits("edge-kalshi-sports-mbp", 10));
    assert!(!f.admits("edge-kalshi-sports-mbp", 12));
    assert!(
        f.admits("edge-kalshi-perps-tob", 1),
        "an unmentioned feed was narrowed"
    );
    assert!(
        f.admits("edge-kalshi-perps-tob", 2),
        "an unmentioned feed was narrowed"
    );
}

#[test]
fn an_excluded_sports_channel_binds_no_socket() {
    let feed = &sports_feed();
    let f = ChannelFilter::parse(&loaded(), "edge-kalshi-sports-mbp=10,11").unwrap();
    let ports: Vec<u16> = f
        .publishers_for(feed)
        .iter()
        .map(|p| p.base_port())
        .collect();
    assert_eq!(ports, vec![34010, 34011]);
}

#[test]
fn an_unmentioned_feed_binds_every_publisher() {
    let feed = &sports_feed();
    let f = ChannelFilter::parse(&loaded(), "").unwrap();
    assert_eq!(f.publishers_for(feed).len(), feed.publishers.len());
    assert!(
        feed.publishers.len() > 2,
        "the feed must be worth narrowing"
    );
}

#[test]
fn an_id_outside_the_published_set_is_rejected() {
    let err = ChannelFilter::parse(&loaded(), "edge-kalshi-sports-mbp=10,63").unwrap_err();
    assert!(
        matches!(err, FilterError::UnknownChannel { id: 63, .. }),
        "wrong variant: {err:?}"
    );
    assert!(
        err.message().contains("63"),
        "the error must name the offending id: {err:?}"
    );
}

#[test]
fn an_unknown_group_code_is_rejected() {
    let err = ChannelFilter::parse(&loaded(), "edge-kalshi-nonesuch=10").unwrap_err();
    assert!(
        matches!(err, FilterError::UnknownCode { ref code, .. } if code == "edge-kalshi-nonesuch"),
        "wrong variant: {err:?}"
    );
}

#[test]
fn narrowing_a_flat_feed_is_refused() {
    let err = ChannelFilter::parse(&loaded(), "edge-kalshi-perps-tob=2").unwrap_err();
    assert!(
        matches!(err, FilterError::FlatRow { ref code, .. } if code == "edge-kalshi-perps-tob"),
        "wrong variant: {err:?}"
    );
    let msg = err.message();
    assert!(
        msg.contains("edge-kalshi-perps-tob"),
        "must name the feed: {msg}"
    );
    assert!(msg.contains("mirrors"), "must say why: {msg}");
}

#[test]
fn an_id_missing_from_one_feed_of_a_shared_code_is_refused() {
    let doc = vec![
        derived_row("shared", "sports", &[10, 11]),
        derived_row("shared", "extras", &[10, 12]),
    ];

    let err = ChannelFilter::parse_within(&doc, "shared=11").unwrap_err();
    assert!(
        matches!(&err, FilterError::UnknownChannel { id: 11, category, .. } if category == "extras"),
        "wrong variant, or it named the wrong feed: {err:?}"
    );
    assert!(
        err.message().contains("extras"),
        "the error must name the feed it would empty: {err:?}"
    );

    let err = ChannelFilter::parse_within(&doc, "shared=12").unwrap_err();
    assert!(
        matches!(&err, FilterError::UnknownChannel { id: 12, category, .. } if category == "sports"),
        "wrong variant, or it named the wrong feed: {err:?}"
    );
}

#[test]
fn a_shared_code_narrows_every_feed_that_carries_it() {
    let doc = vec![
        derived_row("shared", "sports", &[10, 11]),
        derived_row("shared", "extras", &[10, 12]),
    ];
    let f = ChannelFilter::parse_within(&doc, "shared=10").unwrap();
    for r in &doc {
        let ports: Vec<u16> = f.publishers_for(r).iter().map(|p| p.base_port()).collect();
        assert_eq!(
            ports,
            vec![33010],
            "{}: every feed carrying the code must be narrowed, and none emptied",
            r.category
        );
    }
}

#[test]
fn a_flat_feed_sharing_a_code_with_a_derived_one_is_still_refused() {
    let doc = vec![
        derived_row("shared", "sports", &[10, 11]),
        flat_row("shared", "mirrored"),
    ];
    let err = ChannelFilter::parse_within(&doc, "shared=10").unwrap_err();
    assert!(
        matches!(&err, FilterError::FlatRow { category, .. } if category == "mirrored"),
        "wrong variant, or it named the wrong feed: {err:?}"
    );
}

#[test]
fn the_summary_denominator_follows_the_feeds_it_was_parsed_against() {
    let doc = vec![
        derived_row("shared", "sports", &[10, 11]),
        derived_row("shared", "extras", &[10, 12]),
    ];
    let f = ChannelFilter::parse_within(&doc, "shared=10").unwrap();
    assert_eq!(f.summary(), vec!["shared=1 of 3".to_string()]);
    assert_eq!(f.codes(), vec!["shared"]);
}

#[test]
fn whitespace_and_trailing_separators_are_tolerated() {
    let f = ChannelFilter::parse(&loaded(), " edge-kalshi-sports-mbp = 10, 11 ; ").unwrap();
    assert!(f.admits("edge-kalshi-sports-mbp", 11));
    assert!(!f.admits("edge-kalshi-sports-mbp", 12));

    let trailing_comma = ChannelFilter::parse(&loaded(), "edge-kalshi-sports-mbp=10,11,").unwrap();
    assert_eq!(trailing_comma.summary(), f.summary());
}

#[test]
fn a_clause_with_no_ids_is_rejected() {
    assert!(matches!(
        ChannelFilter::parse(&loaded(), "edge-kalshi-sports-mbp=,"),
        Err(FilterError::EmptySelection { .. })
    ));
    assert!(matches!(
        ChannelFilter::parse(&loaded(), "edge-kalshi-sports-mbp="),
        Err(FilterError::EmptySelection { .. })
    ));
    assert!(matches!(
        ChannelFilter::parse(&loaded(), "edge-kalshi-sports-mbp"),
        Err(FilterError::MissingIds { .. })
    ));
}

#[test]
fn a_channel_name_is_rejected_as_an_id() {
    let err = ChannelFilter::parse(&loaded(), "edge-kalshi-sports-mbp=nfl").unwrap_err();
    assert!(
        matches!(err, FilterError::BadId { ref text, .. } if text == "nfl"),
        "wrong variant: {err:?}"
    );
}

#[test]
fn a_repeated_code_is_rejected() {
    assert!(matches!(
        ChannelFilter::parse(&loaded(), "edge-kalshi-sports-mbp=10;edge-kalshi-sports-mbp=11"),
        Err(FilterError::RepeatedCode { .. })
    ));
}

#[test]
fn the_summary_names_the_narrowing() {
    let f = ChannelFilter::parse(&loaded(), "edge-kalshi-sports-mbp=10,11").unwrap();
    assert_eq!(
        f.summary(),
        vec!["edge-kalshi-sports-mbp=2 of 31".to_string()]
    );
}

#[test]
fn every_refusal_is_told_in_words() {
    let told = |spec: &str| ChannelFilter::parse(&loaded(), spec).unwrap_err().message();
    assert_eq!(
        told(" nonsense ;"),
        "channel filter clause `nonsense` has no `=`; the syntax is \
         `<code>=<id>[,<id>...][;<code>=...]`"
    );
    assert_eq!(
        told("nope=1"),
        "channel filter names group code `nope`, which no feed in the loaded feed registry carries; \
         it would filter nothing. Known codes: edge-kalshi-perps-tob, edge-kalshi-sports-mbp"
    );
    assert_eq!(
        told("edge-kalshi-sports-mbp=10;edge-kalshi-sports-mbp=11"),
        "channel filter lists group code `edge-kalshi-sports-mbp` twice; one clause would win and \
         the other's channels would go silently unbound"
    );
    assert_eq!(
        told("edge-kalshi-sports-mbp= , "),
        "channel filter selects no channel for `edge-kalshi-sports-mbp`; the feed would bind no \
         socket at all, which is `--feed`'s job, not this flag's"
    );
    assert_eq!(
        told("edge-kalshi-sports-mbp=256"),
        "channel filter id `256` for `edge-kalshi-sports-mbp` is not a channel id (0-255)"
    );
    let doc = vec![derived_row("shared", "sports", &[12, 10])];
    let err = ChannelFilter::parse_within(&doc, "shared=11").unwrap_err();
    assert!(err.message().starts_with(
        "channel filter names channel 11 on `shared`, which is not in the published set of \
         KALSHI/sports. Every feed"
    ));
    assert!(err.message().ends_with("Published set of KALSHI/sports: 10, 12"));
    assert!(told("edge-kalshi-perps-tob=2").starts_with(
        "channel filter narrows `edge-kalshi-perps-tob` (KALSHI/perps), whose publishers bind one \
         base port flat."
    ));
}

#[test]
fn ids_are_numbers_as_the_shell_user_writes_them() {
    let doc = vec![derived_row("c", "x", &[0, 7, 255])];
    let ok = |spec: &str| ChannelFilter::parse_within(&doc, spec).unwrap();
    assert!(ok("c=+7").admits("c", 7));
    assert!(ok("c=007").admits("c", 7));
    assert!(ok("c=255,0,255").admits("c", 255));
    assert_eq!(ok("c=255,0,255").summary(), vec!["c=2 of 3".to_string()]);
    for bad in ["c=-7", "c=+", "c=7a", "c=1 2", "c=1000000000000000000000"] {
        assert!(
            matches!(
                ChannelFilter::parse_within(&doc, bad),
                Err(FilterError::BadId { .. })
            ),
            "{bad}"
        );
    }
}

#[test]
fn summaries_and_codes_come_in_order() {
    let doc = vec![
        derived_row("b", "x", &[1, 2]),
        derived_row("a", "x", &[3]),
        derived_row("a-b", "x", &[4]),
    ];
    let f = ChannelFilter::parse_within(&doc, "b=1;a=3;a-b=4").unwrap();
    assert_eq!(f.codes(), vec!["a", "a-b", "b"]);
    assert_eq!(
        f.summary(),
        vec!["a-b=1 of 1".to_string(), "a=1 of 1".to_string(), "b=1 of 2".to_string()]
    );
    assert!(ChannelFilter::default().is_empty());
    assert!(ChannelFilter::default().codes().is_empty());
}

#[test]
fn white_space_of_any_script_is_trimmed() {
    let doc = vec![derived_row("c", "x", &[7])];
    let f = ChannelFilter::parse_within(&doc, "\u{3000}c\u{a0}=\t7\u{2003}\n;\u{85}").unwrap();
    assert!(f.admits("c", 7));
    assert!(!f.admits("c", 8));
    let whole = ChannelFilter::parse_within(&doc, "\u{200b}c=7").unwrap_err();
    assert!(matches!(whole, FilterError::UnknownCode { .. }), "not white space: {whole:?}");
}
