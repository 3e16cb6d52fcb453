use chess_rules::piece::{Color, MetaValue, Piece, PieceEntity, Position};

fn json_of_value(value: &MetaValue) -> serde_json::Value {
    match value {
        MetaValue::Null => serde_json::Value::Null,
        MetaValue::Bool(b) => serde_json::Value::Bool(*b),
        MetaValue::Int(i) => serde_json::Value::from(*i),
        MetaValue::Decimal(t) => serde_json::Value::String(t.clone()),
        MetaValue::Text(t) => serde_json::Value::String(t.clone()),
        MetaValue::List(items) => serde_json::Value::Array(items.iter().map(json_of_value).collect()),
        MetaValue::Object(fields) => serde_json::Value::Object(
            fields.iter().map(|(k, v)| (k.clone(), json_of_value(v))).collect(),
        ),
    }
}

fn json_of_entity(entity: &PieceEntity) -> serde_json::Value {
    let mut data = serde_json::Map::new();
    for key in entity.data.keys() {
        data.insert(key.clone(), json_of_value(entity.get_meta(&key).unwrap()));
    }
    let mut piece = serde_json::Map::new();
    let (kind, color) = match entity.piece {
        Piece::Pawn(c) => ("pawn", c),
        Piece::Knight(c) => ("knight", c),
        Piece::Rook(c) => ("rook", c),
        Piece::Bishop(c) => ("bishop", c),
        Piece::King(c) => ("king", c),
        Piece::Queen(c) => ("queen", c),
    };
    let side = match color {
        Color::White => "white",
        Color::Black => "black",
    };
    piece.insert(String::from(kind), serde_json::Value::from(side));
    let mut pos = serde_json::Map::new();
    pos.insert(String::from("rank"), serde_json::Value::from(entity.pos.rank as u64));
    pos.insert(String::from("file"), serde_json::Value::from(entity.pos.file as u64));
    let mut record = serde_json::Map::new();
    record.insert(String::from("piece"), serde_json::Value::Object(piece));
    record.insert(String::from("pos"), serde_json::Value::Object(pos));
    record.insert(String::from("data"), serde_json::Value::Object(data));
    serde_json::Value::Object(record)
}

#[test]
fn piece_entity_json() {
    let mut entity = PieceEntity::new(
        Piece::Rook(Color::White),
        Position { rank: 0, file: 0 },
    );

    entity.set_meta("test_data", 10);
    entity.set_meta("test_value_vec", vec!["spell1", "spell2", "spell3"]);

    let text = serde_json::to_string(&json_of_entity(&entity)).unwrap();

    assert_eq!(entity.get_meta("test_data"), Some(&MetaValue::Int(10)));
    assert_eq!(
        entity.get_meta("test_value_vec"),
        Some(&MetaValue::List(vec![
            MetaValue::text("spell1"),
            MetaValue::text("spell2"),
            MetaValue::text("spell3"),
        ]))
    );
    let read: serde_json::Value = serde_json::from_str(&text).unwrap();
    assert_eq!(read["data"]["test_data"], serde_json::Value::from(10));
    assert_eq!(read["data"]["test_value_vec"][2], serde_json::Value::from("spell3"));
    assert_eq!(read["piece"]["rook"], serde_json::Value::from("white"));
    assert_eq!(read["pos"]["rank"], serde_json::Value::from(0));
}

#[test]
fn metadata_holds_every_shape_of_value() {
    let mut entity = PieceEntity::new(Piece::King(Color::Black), Position { rank: 7, file: 4 });
    entity.set_meta("nothing", MetaValue::Null);
    entity.set_meta("ratio", MetaValue::Decimal(String::from("0.5")));
    entity.set_meta(
        "nested",
        MetaValue::Object(vec![
            (String::from("inner"), MetaValue::List(vec![MetaValue::Bool(true), MetaValue::Null])),
            (String::from("n"), MetaValue::Int(-3)),
        ]),
    );
    entity.set_meta("list", vec![MetaValue::Int(1), MetaValue::text("two")]);

    let copy = entity.clone();
    for e in [&entity, &copy] {
        assert_eq!(e.get_meta("nothing"), Some(&MetaValue::Null));
        assert_eq!(e.get_meta("ratio"), Some(&MetaValue::Decimal(String::from("0.5"))));
        assert_eq!(
            e.get_meta("nested"),
            Some(&MetaValue::Object(vec![
                (
                    String::from("inner"),
                    MetaValue::List(vec![MetaValue::Bool(true), MetaValue::Null])
                ),
                (String::from("n"), MetaValue::Int(-3)),
            ]))
        );
        assert_eq!(
            e.get_meta("list"),
            Some(&MetaValue::List(vec![MetaValue::Int(1), MetaValue::text("two")]))
        );
        assert!(!e.has_moved());
    }
    assert_eq!(
        MetaValue::texts(&["a", "b"]),
        MetaValue::List(vec![MetaValue::text("a"), MetaValue::text("b")])
    );
    assert_eq!(MetaValue::texts(&[]), MetaValue::List(vec![]));
}
