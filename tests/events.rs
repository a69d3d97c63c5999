use combat_log::{
    LineOutcome, LogCell, LogError, LogRow, Parser, classify_line, parse_date_time,
    parse_emote_line, parse_line, parse_log_csv, parse_spell_cast_success_line,
    parse_spell_damage_line, parse_spell_heal_line,
};

const DAMAGE: &str = "SPELL_DAMAGE,Player-1379-0A9FF58F,\"Yerrog-Sanguino\",0x512,0x0,Creature-0-4252-2515-19964-196102-000550239A,\"Conjured Lasher\",0xa48,0x0,213709,\"Brambles\",0x8,Creature-0-4252-2515-19964-196102-000550239A,0000000000000000,1483954,1952835,0,0,5043,0,1,0,0,0,-5095.52,1142.47,2073,6.1556,70,488,488,-1,8,0,0,0,nil,nil,nil";

fn body(tag: &str, n: usize) -> String {
    let cells: Vec<String> = (0..n).map(|i| i.to_string()).collect();
    format!("{},{}", tag, cells.join(","))
}

fn s(text: &str) -> LogCell {
    LogCell::Str(text.to_string())
}

#[test]
fn parse_spell_damage_event() {
    let input = DAMAGE;
    parse_spell_damage_line(input).unwrap();
}

#[test]
fn spell_damage_fields_and_flags() {
    let (rest, d) = parse_spell_damage_line(DAMAGE).unwrap();
    assert_eq!(rest, "");
    assert_eq!(d.sourceGUID, s("Player-1379-0A9FF58F"));
    assert_eq!(d.sourceName, s("Yerrog-Sanguino"));
    assert_eq!(d.sourceFlags, s("0x512"));
    assert_eq!(d.destName, s("Conjured Lasher"));
    assert_eq!(d.spellId, LogCell::Integer(213709));
    assert_eq!(d.ownerGUID, LogCell::Integer(0));
    assert_eq!(d.y, LogCell::Float("-5095.52".to_string()));
    assert_eq!(d.ilvl, LogCell::Integer(70));
    assert_eq!(d.amount, LogCell::Integer(488));
    assert_eq!(d.school, LogCell::Integer(-1));
    assert_eq!(d.absorbed, LogCell::Integer(0));
    // `0` is false; a bare `nil` is a non-empty string and so counts as set.
    assert!(!d.critical);
    assert!(d.glancing);
    assert!(d.crushing);
    assert!(d.isOffHand);
}

#[test]
fn spell_damage_arity() {
    assert_eq!(
        parse_spell_damage_line(&body("SPELL_DAMAGE", 37)),
        Err(LogError::Arity { expected: 38, actual: 37 })
    );
    let mut line = body("SPELL_DAMAGE", 34);
    line.push_str(",0,0.0,[],0|0");
    let (rest, d) = parse_spell_damage_line(&line).unwrap();
    assert_eq!(rest, "");
    assert_eq!(d.absorbed, LogCell::Integer(33));
    assert!(!d.critical && !d.glancing && !d.crushing && !d.isOffHand);
    let mut line = body("SPELL_DAMAGE", 34);
    line.push_str(",1,x,[0],5|0");
    let (_, d) = parse_spell_damage_line(&line).unwrap();
    assert!(d.critical && d.glancing && d.crushing && d.isOffHand);
}

#[test]
fn spell_cast_success_arity() {
    let (rest, c) = parse_spell_cast_success_line(&body("SPELL_CAST_SUCCESS", 28)).unwrap();
    assert_eq!(rest, "");
    assert_eq!(c.sourceGUID, LogCell::Integer(0));
    assert_eq!(c.ilvl, LogCell::Integer(27));
    assert_eq!(
        parse_spell_cast_success_line(&body("SPELL_CAST_SUCCESS", 29)),
        Err(LogError::Arity { expected: 28, actual: 29 })
    );
}

#[test]
fn spell_heal_arity() {
    let (_, h) = parse_spell_heal_line(&body("SPELL_HEAL", 33)).unwrap();
    assert_eq!(h.amount, LogCell::Integer(28));
    assert_eq!(h.overhealing, LogCell::Integer(29));
    assert_eq!(h.absorbed, LogCell::Integer(30));
    assert!(h.critical);
    assert_eq!(
        parse_spell_heal_line(&body("SPELL_HEAL", 32)),
        Err(LogError::Arity { expected: 33, actual: 32 })
    );
}

#[test]
fn decoders_need_their_tag_and_a_cell() {
    assert_eq!(parse_spell_heal_line("SPELL_DAMAGE,1"), Err(LogError::Grammar));
    assert_eq!(parse_spell_heal_line("SPELL_HEAL,"), Err(LogError::Grammar));
    assert_eq!(parse_spell_heal_line("SPELL_HEAL"), Err(LogError::Grammar));
}

#[test]
fn decoder_leaves_what_it_cannot_read() {
    let mut line = body("SPELL_CAST_SUCCESS", 28);
    line.push_str(",]tail");
    let (rest, _) = parse_spell_cast_success_line(&line).unwrap();
    assert_eq!(rest, ",]tail");
}

#[test]
fn unknown_event_is_not_supported() {
    assert_eq!(
        parse_log_csv("UNKNOWN_EVENT,1,2,3"),
        Ok(("UNKNOWN_EVENT,1,2,3".to_string(), LogRow::NotSupported))
    );
}

#[test]
fn body_without_comma_names_no_event() {
    assert_eq!(parse_log_csv("SPELL_DAMAGE"), Err(LogError::MissingEventTag));
}

#[test]
fn dispatch_reaches_each_decoder() {
    assert!(matches!(parse_log_csv(DAMAGE), Ok((_, LogRow::SpellDamage(_)))));
    assert!(matches!(parse_log_csv(&body("SPELL_HEAL", 33)), Ok((_, LogRow::SpellHeal(_)))));
    assert!(matches!(
        parse_log_csv(&body("SPELL_CAST_SUCCESS", 28)),
        Ok((_, LogRow::SpellCastSuccess(_)))
    ));
    assert_eq!(
        parse_log_csv(&body("SPELL_HEAL", 3)),
        Err(LogError::Arity { expected: 33, actual: 3 })
    );
}

#[test]
fn emote_fields() {
    let (rest, e) = parse_emote_line("EMOTE,Player-1-ABC,\"Thrall\",0x0,0x0,Hello, there").unwrap();
    assert_eq!(rest, "");
    assert_eq!(e.sourceGUID, "Player-1-ABC");
    assert_eq!(e.sourcename, "Thrall");
    assert_eq!(e.sourceflags, "0x0");
    assert_eq!(e.sourceraidflags, "0x0");
    assert_eq!(e.text, "Hello, there");
    assert_eq!(parse_emote_line("EMOTE,a,,c,d,e"), Err(LogError::Grammar));
    assert_eq!(parse_emote_line("EMOTE,a,b,c"), Err(LogError::Grammar));
    let (rest, e) = parse_emote_line("EMOTE,a,b,c,d,").unwrap();
    assert_eq!((rest.as_str(), e.text.as_str(), e.sourcename.as_str()), ("", "", "b"));
}

#[test]
fn emote_text_ends_at_a_line_end() {
    assert_eq!(parse_emote_line("EMOTE,a,b,c,d,x\ry"), Err(LogError::Grammar));
    assert_eq!(parse_emote_line("EMOTE,a,b,c,d,x\r"), Err(LogError::Grammar));
    let (rest, e) = parse_emote_line("EMOTE,a,b,c,d,x\r\ny").unwrap();
    assert_eq!((rest.as_str(), e.text.as_str()), ("\r\ny", "x"));
    let (rest, e) = parse_emote_line("EMOTE,a,b,c,d,x\ny").unwrap();
    assert_eq!((rest.as_str(), e.text.as_str()), ("\ny", "x"));
}

#[test]
fn emote_line_end_to_end() {
    let line = "8/3 20:15:42.123  EMOTE,Player-1-ABC,\"Thrall\",0x0,0x0,Hello there";
    let (rest, dt, row) = parse_line(line).unwrap();
    assert_eq!(rest, "");
    assert_eq!(
        (dt.month.as_str(), dt.day.as_str(), dt.hour.as_str(), dt.minute.as_str(), dt.second.as_str(), dt.ms.as_str()),
        ("8", "3", "20", "15", "42", "123")
    );
    match row {
        LogRow::Emote(e) => {
            assert_eq!(e.sourceGUID, "Player-1-ABC");
            assert_eq!(e.sourcename, "Thrall");
            assert_eq!(e.sourceflags, "0x0");
            assert_eq!(e.sourceraidflags, "0x0");
            assert_eq!(e.text, "Hello there");
        }
        other => panic!("expected an emote, got {:?}", other),
    }
}

#[test]
fn damage_line_end_to_end() {
    let line = format!("11/28 21:04:17.905  {}", DAMAGE);
    let (rest, dt, row) = parse_line(&line).unwrap();
    assert_eq!(rest, "");
    assert_eq!(dt.month, "11");
    assert_eq!(dt.ms, "905");
    match row {
        LogRow::SpellDamage(d) => assert!(!d.critical && d.glancing),
        other => panic!("expected spell damage, got {:?}", other),
    }
}

#[test]
fn date_time_parts() {
    let (rest, dt) = parse_date_time("12/31 23:59:59.999  X").unwrap();
    assert_eq!(rest, "  X");
    assert_eq!(dt.day, "31");
    assert_eq!(dt.second, "59");
    assert_eq!(parse_date_time("12/31 23:59:59."), Err(LogError::Framing));
    assert_eq!(parse_date_time("12-31 23:59:59.9"), Err(LogError::Framing));
}

#[test]
fn framing_failures() {
    assert_eq!(parse_line("not a log line"), Err(LogError::Framing));
    assert_eq!(parse_line("8/3 20:15:42.123 EMOTE,a,b,c,d,e"), Err(LogError::Framing));
    assert_eq!(parse_line("8/3 20:15:42.123  NOCOMMA"), Err(LogError::MissingEventTag));
}

#[test]
fn driver_outcomes() {
    let lines = vec![
        "8/3 20:15:42.123  EMOTE,a,b,c,d,hi".to_string(),
        "8/3 20:15:42.123  SPELL_AURA_APPLIED,1,2".to_string(),
        format!("8/3 20:15:42.123  {},]", body("SPELL_CAST_SUCCESS", 28)),
        "garbage".to_string(),
        format!("8/3 20:15:42.123  {}", body("SPELL_DAMAGE", 5)),
    ];
    let out = Parser::new().parse_lines(&lines);
    assert_eq!(out.len(), 5);
    assert!(matches!(out[0], LineOutcome::Parsed(_, LogRow::Emote(_))));
    assert!(matches!(out[1], LineOutcome::Parsed(_, LogRow::NotSupported)));
    match &out[2] {
        LineOutcome::Trailing(_, LogRow::SpellCastSuccess(_), rest) => assert_eq!(rest, ",]"),
        other => panic!("expected a trailing warning, got {:?}", other),
    }
    assert_eq!(out[3], LineOutcome::Failed("garbage".to_string(), LogError::Framing));
    assert_eq!(
        out[4],
        LineOutcome::Failed(lines[4].clone(), LogError::Arity { expected: 38, actual: 5 })
    );
    assert_eq!(classify_line("garbage"), LineOutcome::Failed("garbage".to_string(), LogError::Framing));
}
