//! Catalogs, locale formats, text direction and message extraction.

use nexacore_ui::i18n::{
    escape_po, extract_messages, generate_pot, merge, parse_quoted, plural_rule_default,
    primary_subtag, to_12_hour, translate, Catalog, CivilDateTime, DateTimeFormat,
    ExtractedMessage, LayoutDirection, Localization, NumberFormat, ParseError, ParseErrorKind,
    PhysicalAlign, Side, TextAlign,
};

#[test]
fn parse_reads_singular_entries() {
    let cat = Catalog::parse(
        "it",
        "# greeting catalog\nmsgid \"Hello\"\nmsgstr \"Ciao\"\n\nmsgid \"Bye\"\nmsgstr \"Addio\"\n",
    )
    .unwrap();
    assert_eq!(cat.locale(), "it");
    assert_eq!(cat.len(), 2);
    assert_eq!(cat.get("Hello"), Some("Ciao"));
    assert_eq!(cat.get("Bye"), Some("Addio"));
    assert_eq!(cat.get("Missing"), None);
}

#[test]
fn parse_handles_escapes() {
    let cat = Catalog::parse("it", "msgid \"a\\tb\"\nmsgstr \"x\\ny\\\"z\"\n").unwrap();
    assert_eq!(cat.get("a\tb"), Some("x\ny\"z"));
}

#[test]
fn parse_reads_plural_forms() {
    let cat = Catalog::parse(
        "it",
        "msgid \"%d file\"\nmsgid_plural \"%d files\"\nmsgstr[0] \"%d file\"\nmsgstr[1] \"%d file (plurale)\"\n",
    )
    .unwrap();
    assert_eq!(
        cat.get_plural("%d file", 1, plural_rule_default),
        Some("%d file")
    );
    assert_eq!(
        cat.get_plural("%d file", 5, plural_rule_default),
        Some("%d file (plurale)")
    );
}

#[test]
fn get_plural_clamps_to_last_available_form() {
    let mut cat = Catalog::new("en");
    cat.insert_plural("item", &["one item"]); // only one form
    assert_eq!(
        cat.get_plural("item", 9, plural_rule_default),
        Some("one item")
    );
    assert_eq!(cat.get_plural("nope", 1, plural_rule_default), None);
}

#[test]
fn parse_rejects_malformed_lines() {
    // Missing closing quote.
    let e = Catalog::parse("it", "msgid \"oops\nmsgstr \"x\"\n").unwrap_err();
    assert_eq!(e.line, 1);
    assert_eq!(e.kind, ParseErrorKind::Malformed);
    // msgstr with no preceding msgid.
    let e = Catalog::parse("it", "msgstr \"x\"\n").unwrap_err();
    assert_eq!(e.kind, ParseErrorKind::OrphanMsgstr);
    // Unknown keyword.
    let e = Catalog::parse("it", "msgfoo \"x\"\n").unwrap_err();
    assert_eq!(e.kind, ParseErrorKind::UnknownKeyword);
}

#[test]
fn translate_falls_back_to_msgid() {
    let cat = Catalog::parse("it", "msgid \"Hello\"\nmsgstr \"Ciao\"\n").unwrap();
    assert_eq!(translate(&cat, "Hello"), "Ciao");
    assert_eq!(translate(&cat, "Untranslated"), "Untranslated");
}

#[test]
fn plural_rule_default_matches_english() {
    assert_eq!(plural_rule_default(0), 1);
    assert_eq!(plural_rule_default(1), 0);
    assert_eq!(plural_rule_default(2), 1);
}

#[test]
fn localization_resolves_active_then_fallback_then_msgid() {
    let en = Catalog::parse(
        "en",
        "msgid \"Hello\"\nmsgstr \"Hello\"\nmsgid \"Save\"\nmsgstr \"Save\"\n",
    )
    .unwrap();
    let it = Catalog::parse("it", "msgid \"Hello\"\nmsgstr \"Ciao\"\n").unwrap();
    let mut l10n = Localization::new("en");
    l10n.add_catalog(en);
    l10n.add_catalog(it);

    // Active = fallback (en).
    assert_eq!(l10n.active_locale(), "en");
    assert_eq!(l10n.translate("Hello"), "Hello");

    // Switch to it: "Hello" from it, "Save" falls back to en, unknown → msgid.
    assert!(l10n.set_locale("it"));
    assert_eq!(l10n.translate("Hello"), "Ciao");
    assert_eq!(l10n.translate("Save"), "Save"); // fallback
    assert_eq!(l10n.translate("Quit"), "Quit"); // msgid
}

#[test]
fn set_locale_reports_missing_catalog_but_still_switches() {
    let mut l10n = Localization::new("en");
    l10n.add_catalog(Catalog::parse("en", "msgid \"Hi\"\nmsgstr \"Hi\"\n").unwrap());
    // No German catalog registered.
    assert!(!l10n.set_locale("de"));
    assert_eq!(l10n.active_locale(), "de");
    // Lookup still resolves via the fallback.
    assert_eq!(l10n.translate("Hi"), "Hi");
}

#[test]
fn language_switch_is_live_and_reversible() {
    let en = Catalog::parse("en", "msgid \"Yes\"\nmsgstr \"Yes\"\n").unwrap();
    let it = Catalog::parse("it", "msgid \"Yes\"\nmsgstr \"Si\"\n").unwrap();
    let mut l10n = Localization::new("en");
    l10n.add_catalog(en);
    l10n.add_catalog(it);
    assert_eq!(l10n.translate("Yes"), "Yes");
    l10n.set_locale("it");
    assert_eq!(l10n.translate("Yes"), "Si"); // no restart needed
    l10n.set_locale("en");
    assert_eq!(l10n.translate("Yes"), "Yes"); // switched back
}

#[test]
fn localization_translate_plural_through_active_and_fallback() {
    let mut en = Catalog::new("en");
    en.insert_plural("%d msg", &["%d message", "%d messages"]);
    let it = Catalog::new("it"); // no plural entry for it
    let mut l10n = Localization::new("en");
    l10n.add_catalog(en);
    l10n.add_catalog(it);
    l10n.set_locale("it");
    // Missing in it → fallback to en plural forms.
    assert_eq!(
        l10n.translate_plural("%d msg", 1, plural_rule_default),
        "%d message"
    );
    assert_eq!(
        l10n.translate_plural("%d msg", 3, plural_rule_default),
        "%d messages"
    );
    // Unknown msgid → msgid.
    assert_eq!(
        l10n.translate_plural("%d x", 2, plural_rule_default),
        "%d x"
    );
}

#[test]
fn number_format_groups_integers_per_locale() {
    let en = NumberFormat::for_locale("en-US");
    let it = NumberFormat::for_locale("it");
    let fr = NumberFormat::for_locale("fr-FR");
    assert_eq!(en.format_i64(1_234_567), "1,234,567");
    assert_eq!(it.format_i64(1_234_567), "1.234.567");
    assert_eq!(fr.format_i64(1_234_567), "1 234 567");
    assert_eq!(en.format_i64(-1_000), "-1,000");
    assert_eq!(en.format_i64(42), "42"); // below grouping threshold
}

#[test]
fn number_format_fixed_point_is_exact() {
    let en = NumberFormat::new(',', '.');
    let it = NumberFormat::new('.', ',');
    assert_eq!(en.format_fixed(123_456, 2), "1,234.56");
    assert_eq!(it.format_fixed(123_456, 2), "1.234,56");
    // Left-pads a value smaller than the fractional scale.
    assert_eq!(en.format_fixed(5, 2), "0.05");
    assert_eq!(en.format_fixed(-7, 2), "-0.07");
    // frac == 0 behaves like format_i64.
    assert_eq!(en.format_fixed(1_000, 0), "1,000");
}

#[test]
fn unknown_locale_falls_back_to_english_numbers() {
    let x = NumberFormat::for_locale("xx-YY");
    assert_eq!(x.grouping(), ',');
    assert_eq!(x.decimal(), '.');
}

fn sample() -> CivilDateTime {
    CivilDateTime {
        year: 2026,
        month: 7,
        day: 4,
        hour: 14,
        minute: 5,
        second: 9,
    }
}

#[test]
fn date_order_follows_locale() {
    let dt = sample();
    assert_eq!(
        DateTimeFormat::for_locale("en-US").format_date(&dt),
        "07/04/2026"
    );
    assert_eq!(
        DateTimeFormat::for_locale("it").format_date(&dt),
        "04/07/2026"
    );
    assert_eq!(
        DateTimeFormat::for_locale("de").format_date(&dt),
        "04.07.2026"
    );
    assert_eq!(
        DateTimeFormat::for_locale("ja").format_date(&dt),
        "2026/07/04"
    );
    // Unknown → ISO.
    assert_eq!(
        DateTimeFormat::for_locale("xx").format_date(&dt),
        "2026-07-04"
    );
}

#[test]
fn time_uses_12_or_24_hour_per_locale() {
    let dt = sample();
    // it → 24h.
    assert_eq!(
        DateTimeFormat::for_locale("it").format_time(&dt),
        "14:05:09"
    );
    // en-US → 12h with meridiem.
    assert_eq!(
        DateTimeFormat::for_locale("en-US").format_time(&dt),
        "2:05:09 PM"
    );
}

#[test]
fn twelve_hour_edges_map_correctly() {
    assert_eq!(to_12_hour(0), (12, "AM")); // midnight
    assert_eq!(to_12_hour(11), (11, "AM"));
    assert_eq!(to_12_hour(12), (12, "PM")); // noon
    assert_eq!(to_12_hour(23), (11, "PM"));
}

#[test]
fn format_datetime_joins_date_and_time() {
    let dt = sample();
    assert_eq!(
        DateTimeFormat::for_locale("en-GB").format_datetime(&dt),
        "04/07/2026 14:05:09"
    );
}

#[test]
fn primary_subtag_extracts_language() {
    assert_eq!(primary_subtag("pt-BR"), "pt");
    assert_eq!(primary_subtag("en_US"), "en");
    assert_eq!(primary_subtag("de"), "de");
    assert_eq!(primary_subtag(""), "");
}

#[test]
fn layout_direction_from_locale() {
    assert_eq!(LayoutDirection::from_locale("ar"), LayoutDirection::Rtl);
    assert_eq!(LayoutDirection::from_locale("he-IL"), LayoutDirection::Rtl);
    assert_eq!(LayoutDirection::from_locale("fa"), LayoutDirection::Rtl);
    assert_eq!(LayoutDirection::from_locale("en-US"), LayoutDirection::Ltr);
    assert_eq!(LayoutDirection::from_locale("it"), LayoutDirection::Ltr);
    assert!(LayoutDirection::from_locale("ur").is_rtl());
    assert!(!LayoutDirection::from_locale("de").is_rtl());
}

#[test]
fn logical_edges_flip_with_direction() {
    assert_eq!(LayoutDirection::Ltr.leading_side(), Side::Left);
    assert_eq!(LayoutDirection::Ltr.trailing_side(), Side::Right);
    assert_eq!(LayoutDirection::Rtl.leading_side(), Side::Right);
    assert_eq!(LayoutDirection::Rtl.trailing_side(), Side::Left);
}

#[test]
fn resolve_x_mirrors_only_in_rtl() {
    // LTR is identity.
    assert_eq!(LayoutDirection::Ltr.resolve_x(10, 20, 100), 10);
    // RTL mirrors: 100 - 10 - 20 = 70.
    assert_eq!(LayoutDirection::Rtl.resolve_x(10, 20, 100), 70);
    // A child flush to the leading edge lands flush to the opposite edge.
    assert_eq!(LayoutDirection::Rtl.resolve_x(0, 30, 100), 70);
    // Overflow clamps to 0 rather than underflowing.
    assert_eq!(LayoutDirection::Rtl.resolve_x(90, 30, 100), 0);
}

#[test]
fn resolve_align_maps_logical_to_physical() {
    let (ltr, rtl) = (LayoutDirection::Ltr, LayoutDirection::Rtl);
    assert_eq!(ltr.resolve_align(TextAlign::Start), PhysicalAlign::Left);
    assert_eq!(ltr.resolve_align(TextAlign::End), PhysicalAlign::Right);
    assert_eq!(rtl.resolve_align(TextAlign::Start), PhysicalAlign::Right);
    assert_eq!(rtl.resolve_align(TextAlign::End), PhysicalAlign::Left);
    assert_eq!(rtl.resolve_align(TextAlign::Center), PhysicalAlign::Center);
}

#[test]
fn tr_macros_translate_at_runtime() {
    let mut l10n = Localization::new("en");
    let mut it = Catalog::parse("it", "msgid \"Save\"\nmsgstr \"Salva\"\n").unwrap();
    it.insert_plural("%d file", &["%d file", "%d file (pl)"]);
    l10n.add_catalog(it);
    l10n.set_locale("it");
    assert_eq!(l10n.translate("Save"), "Salva");
    assert_eq!(l10n.translate_plural("%d file", 1, plural_rule_default), "%d file");
    assert_eq!(
        l10n.translate_plural("%d file", 3, plural_rule_default),
        "%d file (pl)"
    );
}

#[test]
fn extract_collects_singular_and_plural_in_order() {
    let src = r#"
        let a = tr!(l10n, "Save");
        let b = tr_plural!(l10n, "%d file", "%d files", n);
        let c = tr!(l10n, "Open");
    "#;
    let msgs = extract_messages(src);
    assert_eq!(msgs.len(), 3);
    assert_eq!(msgs[0].msgid, "Save");
    assert_eq!(msgs[0].plural, None);
    assert_eq!(msgs[1].msgid, "%d file");
    assert_eq!(msgs[1].plural.as_deref(), Some("%d files"));
    assert_eq!(msgs[2].msgid, "Open");
}

#[test]
fn extract_dedups_by_msgid() {
    let src = "tr!(l, \"Hi\"); tr!(l, \"Hi\"); tr!(l, \"Bye\");";
    let msgs = extract_messages(src);
    assert_eq!(msgs.len(), 2);
    assert_eq!(msgs[0].msgid, "Hi");
    assert_eq!(msgs[1].msgid, "Bye");
}

#[test]
fn extract_ignores_strings_comments_and_false_positives() {
    let src = r#"
        let s = "not a call: tr!(l, \"nope\")";  // tr!(l, "also nope")
        /* block: tr!(l, "still nope") */
        let real = tr!(l10n, "Real");
        let sub = subtract!(x); // 'tr' as a suffix must not match
    "#;
    let msgs = extract_messages(src);
    assert_eq!(msgs.len(), 1);
    assert_eq!(msgs[0].msgid, "Real");
}

#[test]
fn generate_pot_emits_empty_msgstr_template() {
    let msgs =
        extract_messages("tr!(l, \"Save\"); tr_plural!(l, \"%d file\", \"%d files\", n);");
    let pot = generate_pot(&msgs);
    assert!(pot.contains("msgid \"Save\"\nmsgstr \"\"\n"));
    assert!(pot.contains(
        "msgid \"%d file\"\nmsgid_plural \"%d files\"\nmsgstr[0] \"\"\nmsgstr[1] \"\"\n"
    ));
}

#[test]
fn generate_pot_escapes_specials() {
    let msgs = vec![ExtractedMessage {
        msgid: "a\"b\nc".to_string(),
        plural: None,
    }];
    let pot = generate_pot(&msgs);
    assert!(pot.contains("msgid \"a\\\"b\\nc\"\n"));
}

#[test]
fn merge_preserves_translations_drops_obsolete_omits_new() {
    let existing = Catalog::parse(
        "it",
        "msgid \"Save\"\nmsgstr \"Salva\"\nmsgid \"Old\"\nmsgstr \"Vecchio\"\n",
    )
    .unwrap();
    // Current sources have Save (kept) and New (untranslated); Old is gone.
    let msgs = vec![
        ExtractedMessage {
            msgid: "Save".to_string(),
            plural: None,
        },
        ExtractedMessage {
            msgid: "New".to_string(),
            plural: None,
        },
    ];
    let merged = merge(&existing, &msgs);
    assert_eq!(merged.locale(), "it");
    assert_eq!(merged.get("Save"), Some("Salva")); // preserved
    assert_eq!(merged.get("Old"), None); // obsolete dropped
    assert_eq!(merged.get("New"), None); // untranslated → falls back at runtime
}

#[test]
fn merge_preserves_existing_plural_forms() {
    let mut existing = Catalog::new("it");
    existing.insert_plural("%d file", &["%d file", "%d file (pl)"]);
    let msgs = vec![ExtractedMessage {
        msgid: "%d file".to_string(),
        plural: Some("%d files".to_string()),
    }];
    let merged = merge(&existing, &msgs);
    assert_eq!(
        merged.get_plural("%d file", 5, plural_rule_default),
        Some("%d file (pl)")
    );
}

#[test]
fn a_template_reads_back_as_a_catalog() {
    let msgs = vec![ExtractedMessage {
        msgid: "tab\there \"quoted\" back\\slash".to_string(),
        plural: None,
    }];
    let cat = Catalog::parse("x", &generate_pot(&msgs)).unwrap();
    assert_eq!(cat.get("tab\there \"quoted\" back\\slash"), Some(""));
}

#[test]
fn grouping_keeps_the_digits() {
    let f = NumberFormat::for_locale("de");
    for n in [i64::MIN, -1, 0, 999, 1000, i64::MAX] {
        let digits: String = f.format_i64(n).chars().filter(|c| *c != '.').collect();
        assert_eq!(digits, n.to_string());
    }
}

#[test]
fn mirroring_twice_changes_nothing() {
    for x in [0u32, 10, 70] {
        let once = LayoutDirection::Rtl.resolve_x(x, 30, 100);
        assert_eq!(LayoutDirection::Rtl.resolve_x(once, 30, 100), x);
    }
}

/// A template entry that nobody has filled in yet leaves no blank.
#[test]
fn empty_translation_shows_the_source_string() {
    let it = Catalog::parse("it", "msgid \"Save\"\nmsgstr \"\"\n").unwrap();
    assert_eq!(it.get("Save"), Some(""));
    assert_eq!(translate(&it, "Save"), "Save");

    let mut en = Catalog::new("en");
    en.insert("Save", "Save now");
    let mut l10n = Localization::new("en");
    l10n.add_catalog(it);
    l10n.add_catalog(en);
    l10n.set_locale("it");
    assert_eq!(l10n.translate("Save"), "Save now");
    assert_eq!(l10n.translate("Open"), "Open");
}

/// Entries that are still empty are untranslated, and merging omits those.
#[test]
fn merge_omits_empty_translations() {
    let mut existing = Catalog::new("it");
    existing.insert("Save", "");
    existing.insert("Open", "Apri");
    existing.insert_plural("%d file", &["", ""]);
    existing.insert_plural("%d line", &["%d riga", ""]);
    let message = |id: &str, plural: Option<&str>| ExtractedMessage {
        msgid: id.to_string(),
        plural: plural.map(str::to_string),
    };
    let merged = merge(
        &existing,
        &[
            message("Save", None),
            message("Open", None),
            message("%d file", Some("%d files")),
            message("%d line", Some("%d lines")),
        ],
    );
    assert_eq!(merged.get("Save"), None);
    assert_eq!(merged.get("Open"), Some("Apri"));
    assert_eq!(merged.get_plural("%d file", 1, plural_rule_default), None);
    assert_eq!(
        merged.get_plural("%d line", 1, plural_rule_default),
        Some("%d riga")
    );
}

/// A generated template is read back, message by message, with empty translations.
#[test]
fn generated_template_parses_back() {
    let msgs = vec![
        ExtractedMessage {
            msgid: "a \"quoted\"\n\ttext \\ with\rall of it ".to_string(),
            plural: None,
        },
        ExtractedMessage {
            msgid: "%d file".to_string(),
            plural: Some("%d \"files\"".to_string()),
        },
        ExtractedMessage {
            msgid: String::new(),
            plural: None,
        },
    ];
    let c = Catalog::parse("it", &generate_pot(&msgs)).unwrap();
    assert_eq!(c.locale(), "it");
    assert_eq!(c.len(), 2);
    assert_eq!(c.get(&msgs[0].msgid), Some(""));
    assert_eq!(c.get(""), Some(""));
    assert_eq!(c.get("%d file"), None);
    for n in 0..4 {
        assert_eq!(c.get_plural("%d file", n, plural_rule_default), Some(""));
    }
}

/// White space around a literal is no part of it.
#[test]
fn white_space_around_a_literal_is_ignored() {
    let c = Catalog::parse("it", "  msgid \t \" Save \"  \nmsgstr\" Salva\\t\"\t\n").unwrap();
    assert_eq!(c.get(" Save "), Some(" Salva\t"));
}

#[test]
fn default_catalog_and_registry_are_empty() {
    let c = Catalog::default();
    assert_eq!(c.locale(), "");
    assert!(c.is_empty());
    assert_eq!(c, Catalog::new(""));
    let l = Localization::default();
    assert_eq!(l.active_locale(), "");
    assert_eq!(l.fallback_locale(), "");
    assert!(!l.has_locale(""));
    assert_eq!(l.translate("Save"), "Save");
}

/// A plural form that nobody has filled in yet leaves no blank either.
#[test]
fn empty_plural_form_is_passed_over() {
    let mut it = Catalog::new("it");
    it.insert_plural("%d line", &["%d riga", ""]);
    it.insert_plural("%d file", &["", ""]);
    assert_eq!(it.get_plural("%d line", 2, plural_rule_default), Some(""));
    let mut en = Catalog::new("en");
    en.insert_plural("%d line", &["%d line", "%d lines"]);
    let mut l10n = Localization::new("en");
    l10n.add_catalog(it);
    l10n.add_catalog(en);
    l10n.set_locale("it");
    assert_eq!(l10n.translate_plural("%d line", 1, plural_rule_default), "%d riga");
    assert_eq!(l10n.translate_plural("%d line", 2, plural_rule_default), "%d lines");
    assert_eq!(l10n.translate_plural("%d file", 2, plural_rule_default), "%d file");
}

/// Reading a quoted literal undoes escaping, and ignores white space around it.
#[test]
fn quoted_literal_round_trip() {
    for text in ["", " a ", "a\"b\\c\n\td\\n", "\u{e9}\r"] {
        let quoted = format!(" \t\"{}\"\n", escape_po(text));
        assert_eq!(parse_quoted(&quoted, 3), Ok(text.to_string()));
    }
    assert_eq!(escape_po("a\"b\nc"), "a\\\"b\\nc");
    let error = |kind| Err(ParseError { line: 3, kind });
    assert_eq!(parse_quoted("\"", 3), error(ParseErrorKind::Malformed));
    assert_eq!(parse_quoted("\"a\"b\"", 3), error(ParseErrorKind::Malformed));
    assert_eq!(parse_quoted("\"\\x\"", 3), error(ParseErrorKind::BadEscape));
}
