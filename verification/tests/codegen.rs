use dabqlite::codegen::{
    emit_queries_rust, emit_rust, fnv1a64, parse_queries, parse_schema, query_space_hash, ColType,
    QueryKind, QueryShape, Schema,
};
use dabqlite::generated::queries::{get_record, insert_record, OPERATIONS, QUERY_SPACE_HASH};
use dabqlite::generated::{records, records_v1};
use dabqlite::{Input, ROW_SIZE, SCHEMA_HASH, VALUE_LEN};

const RECORDS_SQL: &str = "CREATE TABLE records (\n id BIGINT NOT NULL PRIMARY KEY,\n value BYTEA NOT NULL -- @fixed(16)\n);";

const QUERIES_SQL: &str = "-- name: get_record :one\nSELECT id, value FROM records WHERE id = $1;\n\n-- name: insert_record :exec\nINSERT INTO records (id, value) VALUES ($1, $2);\n";

fn records() -> Schema {
    parse_schema(RECORDS_SQL).expect("records schema parses")
}

#[test]
fn the_records_schema_is_what_the_generated_codec_is_made_of() {
    let schema = records();
    assert_eq!(schema.table, "records");
    assert_eq!(schema.columns.len(), 2);
    assert_eq!(schema.columns[0].name, "id");
    assert_eq!(schema.columns[0].ty, ColType::BigInt);
    assert!(schema.columns[0].primary_key);
    assert_eq!(schema.columns[1].name, "value");
    assert_eq!(schema.columns[1].ty, ColType::FixedBytes(16));

    let layout = schema.layout();
    assert_eq!(layout.field_offsets, vec![0, 8]);
    assert_eq!(layout.crc_offset, records::RECORDS_CRC_OFFSET);
    assert_eq!(layout.row_size, ROW_SIZE);
    assert_eq!(schema.columns[1].ty.width(), VALUE_LEN);
    // The engine's hash is the derived value.
    assert_eq!(schema.schema_hash(), SCHEMA_HASH);

    let legacy = parse_schema(&RECORDS_SQL.replace("@fixed(16)", "@fixed(8)")).unwrap();
    assert_eq!(legacy.schema_hash(), records_v1::RECORDS_SCHEMA_HASH);
    assert_eq!(legacy.layout().row_size, records_v1::RECORDS_ROW_SIZE);
    assert_eq!(legacy.layout().crc_offset, records_v1::RECORDS_CRC_OFFSET);
}

#[test]
fn hash_is_sensitive_to_every_layout_input() {
    let base = records().schema_hash();
    let variants = [
        // renamed table
        "CREATE TABLE record2 (\n id BIGINT NOT NULL PRIMARY KEY,\n value BYTEA NOT NULL -- @fixed(16)\n);",
        // renamed column
        "CREATE TABLE records (\n id BIGINT NOT NULL PRIMARY KEY,\n val BYTEA NOT NULL -- @fixed(16)\n);",
        // widened field
        "CREATE TABLE records (\n id BIGINT NOT NULL PRIMARY KEY,\n value BYTEA NOT NULL -- @fixed(32)\n);",
        // extra column
        "CREATE TABLE records (\n id BIGINT NOT NULL PRIMARY KEY,\n value BYTEA NOT NULL, -- @fixed(16)\n extra BIGINT NOT NULL\n);",
    ];
    for v in variants {
        let h = parse_schema(v).expect("variant parses").schema_hash();
        assert_ne!(h, base, "hash failed to distinguish variant: {v}");
    }
    // And insensitive to formatting-only changes.
    let reformatted = "\n\n-- a comment\nCREATE TABLE records (\n    id     BIGINT   NOT NULL PRIMARY KEY,\n    value  BYTEA    NOT NULL -- @fixed(16)\n);\n";
    assert_eq!(parse_schema(reformatted).unwrap().schema_hash(), base);
}

#[test]
fn parse_errors_are_loud_and_specific() {
    let cases: &[(&str, &str)] = &[
        ("CREATE TABLE records (\n id BIGINT PRIMARY KEY\n);", "NOT NULL"),
        (
            "CREATE TABLE records (\n id BIGINT NOT NULL PRIMARY KEY,\n value BYTEA NOT NULL\n);",
            "@fixed",
        ),
        (
            "CREATE TABLE records (\n id BIGINT NOT NULL PRIMARY KEY,\n value TEXT NOT NULL\n);",
            "unsupported type",
        ),
        (
            "CREATE TABLE records (\n value BYTEA NOT NULL, -- @fixed(16)\n id BIGINT NOT NULL PRIMARY KEY\n);",
            "first column",
        ),
        ("CREATE TABLE records (\n id BIGINT NOT NULL\n);", "exactly one PRIMARY KEY"),
        (
            "CREATE TABLE records (\n id BIGINT NOT NULL PRIMARY KEY,\n id BIGINT NOT NULL\n);",
            "duplicate column",
        ),
        (
            "CREATE TABLE records (\n id BIGINT NOT NULL PRIMARY KEY,\n value BYTEA NOT NULL -- @fixed(0)\n);",
            "out of range",
        ),
        (
            "CREATE TABLE records (\n id BIGINT NOT NULL PRIMARY KEY,\n value BYTEA NOT NULL -- @sized(16)\n);",
            "unrecognized annotation",
        ),
        (
            "CREATE TABLE records (\n id BIGINT NOT NULL PRIMARY KEY\n);\nDROP TABLE records;",
            "unexpected content",
        ),
    ];
    for (sql, needle) in cases {
        match parse_schema(sql) {
            Err(e) => assert!(
                e.msg.contains(needle),
                "error for {sql:?} should mention {needle:?}, got: {}",
                e.to_text()
            ),
            Ok(s) => panic!("{sql:?} should not parse, got {s:?}"),
        }
    }
}

#[test]
fn every_other_schema_error_names_its_line_and_reason() {
    let cases: &[(&str, usize, &str)] = &[
        ("", 0, "no CREATE TABLE statement found"),
        ("CREATE TABLE t (\n id BIGINT NOT NULL PRIMARY KEY\n", 0, "CREATE TABLE was never closed with ');'"),
        ("\nCREATE TABLE t", 2, "expected 'CREATE TABLE <name> (' on one line, found \"CREATE TABLE t\""),
        ("CREATE VIEW t (", 1, "expected 'CREATE TABLE <name> (', found \"CREATE VIEW t (\""),
        ("CREATE TABLE Big (", 1, "table name \"Big\" must be lower_snake_case ascii"),
        ("CREATE TABLE t (\n);", 0, "table \"t\" has no columns"),
        ("CREATE TABLE t (\n ,\n);", 2, "empty column declaration"),
        ("CREATE TABLE t (\n Id BIGINT NOT NULL\n);", 2, "column name \"Id\" must be lower_snake_case ascii"),
        ("CREATE TABLE t (\n id\n);", 2, "column \"id\" is missing a type"),
        ("CREATE TABLE t (\n id BIGINT NOT NULL UNIQUE\n);", 2, "column \"id\": unsupported modifier \"unique\""),
        ("CREATE TABLE t (\n id BIGINT NOT NULL -- @fixed(8)\n);", 2, "column \"id\": @fixed(n) applies to BYTEA, not BIGINT"),
        ("CREATE TABLE t (\n v BYTEA NOT NULL -- @fixed(8\n);", 2, "@fixed( is missing its closing ')'"),
        ("CREATE TABLE t (\n v BYTEA NOT NULL -- @fixed(x)\n);", 2, "@fixed(x) is not a number"),
        ("CREATE TABLE t (\n v BYTEA NOT NULL -- @wide(8)\n);", 2, "unrecognized annotation in comment \"@wide(8)\"; v1 knows @fixed(n)"),
        ("CREATE TABLE t (\n v BYTEA NOT NULL PRIMARY KEY -- @fixed(8)\n);", 0, "table \"t\": the PRIMARY KEY must be BIGINT in v1"),
    ];
    for (sql, line, msg) in cases {
        let e = parse_schema(sql).expect_err(sql);
        assert_eq!((e.line, e.msg.as_str()), (*line, *msg), "{sql:?}");
        assert_eq!(e.to_text(), format!("schema line {line}: {msg}"));
    }
}

#[test]
fn index_annotations_shape_operations_not_layout() {
    let plain = "CREATE TABLE records (\n id BIGINT NOT NULL PRIMARY KEY,\n value BYTEA NOT NULL -- @fixed(16)\n);";
    let indexed = "CREATE TABLE records (\n id BIGINT NOT NULL PRIMARY KEY,\n value BYTEA NOT NULL -- @fixed(16) @index(trigram)\n);";
    let plain = parse_schema(plain).unwrap();
    let indexed = parse_schema(indexed).unwrap();
    assert_eq!(plain.schema_hash(), indexed.schema_hash());
    assert!(!plain.columns[1].trigram);
    assert!(indexed.columns[1].trigram);
}

#[test]
fn index_annotation_rejections_are_loud() {
    for (sql, msg) in [
        (
            "CREATE TABLE records (\n id BIGINT NOT NULL PRIMARY KEY -- @index(trigram)\n);",
            "applies to BYTEA",
        ),
        (
            "CREATE TABLE records (\n id BIGINT NOT NULL PRIMARY KEY,\n value BYTEA NOT NULL -- @fixed(16) @index(hnsw)\n);",
            "not a v1 index method",
        ),
        (
            "CREATE TABLE records (\n id BIGINT NOT NULL PRIMARY KEY,\n value BYTEA NOT NULL -- @fixed(16) @index(trigram\n);",
            "missing its closing",
        ),
    ] {
        let e = parse_schema(sql).expect_err(sql);
        assert!(e.msg.contains(msg), "{sql:?}: {}", e.to_text());
    }
}

#[test]
fn quoted_text_in_errors_is_escaped() {
    let e = parse_schema("CREATE TABLE t\"\\ (").expect_err("bad name");
    assert_eq!(e.msg, "table name \"t\\\"\\\\\" must be lower_snake_case ascii");
}

#[test]
fn layout_packs_fields_then_checksum_then_padding() {
    let s = parse_schema(
        "CREATE TABLE wide (\n id BIGINT NOT NULL PRIMARY KEY,\n a BYTEA NOT NULL, -- @fixed(3)\n b BIGINT NOT NULL,\n c BYTEA NOT NULL -- @fixed(256)\n);",
    )
    .unwrap();
    let l = s.layout();
    assert_eq!(l.field_offsets, vec![0, 8, 11, 19]);
    assert_eq!(l.crc_offset, 275);
    assert_eq!(l.row_size, 280);
}

#[test]
fn fnv_has_its_published_values() {
    assert_eq!(fnv1a64(b""), 0xcbf2_9ce4_8422_2325);
    assert_eq!(fnv1a64(b"a"), 0xaf63_dc4c_8601_ec8c);
    assert_eq!(fnv1a64(b"foobar"), 0x8594_4171_f739_67e8);
}

#[test]
fn generated_code_carries_the_layout() {
    let code = emit_rust(&records(), "schema/records.sql");
    for needle in [
        "// @generated by dabqlite-codegen from schema/records.sql. DO NOT EDIT.",
        "RECORDS_ROW_SIZE: usize = 32;",
        "RECORDS_CRC_OFFSET: usize = 24;",
        "RECORDS_SCHEMA_HASH: u64 = 0x181F56C6632BC4E3;",
        "pub struct RecordsRow {",
        "    pub value: [u8; 16],",
        "    out[0..8].copy_from_slice(&row.id.to_le_bytes());\n",
        "    out[8..24].copy_from_slice(&row.value);\n",
        "pub fn decode_records_row(bytes: &[u8]) -> Option<RecordsRow> {",
        "    Some(RecordsRow { id, value })\n}\n",
    ] {
        assert!(code.contains(needle), "missing {needle:?} in:\n{code}");
    }
    assert_eq!(SCHEMA_HASH, 0x181F_56C6_632B_C4E3);
}

#[test]
fn declared_queries_parse_to_the_expected_operation_space() {
    let queries = parse_queries(QUERIES_SQL, &records()).expect("queries parse");
    assert_eq!(queries.len(), 2);
    let get = queries.iter().find(|q| q.name == "get_record").expect("get");
    assert_eq!(get.kind, QueryKind::One);
    assert_eq!(get.shape, QueryShape::SelectByPk);
    let ins = queries.iter().find(|q| q.name == "insert_record").expect("insert");
    assert_eq!(ins.kind, QueryKind::Exec);
    assert_eq!(ins.shape, QueryShape::InsertRow);

    assert_eq!(OPERATIONS, ["get_record", "insert_record"]);
    assert_eq!(query_space_hash(&queries), QUERY_SPACE_HASH);
    assert_eq!(get_record(7), Input::Get { id: 7 });
    assert_eq!(insert_record(7, [1; 16]), Input::Insert { id: 7, value: [1; 16] });
}

#[test]
fn query_space_hash_is_sensitive_and_stable() {
    let s = records();
    let base = query_space_hash(&parse_queries(QUERIES_SQL, &s).unwrap());

    // Removing an operation changes the hash.
    let only_get = "-- name: get_record :one\nSELECT id, value FROM records WHERE id = $1;\n";
    assert_ne!(base, query_space_hash(&parse_queries(only_get, &s).unwrap()));

    // Renaming an operation changes the hash.
    let renamed = QUERIES_SQL.replace("get_record", "fetch_record");
    assert_ne!(base, query_space_hash(&parse_queries(&renamed, &s).unwrap()));

    // Formatting, comments, and declaration order do not.
    let reordered = "-- a comment\n-- name: insert_record :exec\nINSERT   INTO records (id,value)\nVALUES ($1, $2);\n\n-- name: get_record :one\nSELECT id,value FROM records WHERE id=$1;\n";
    assert_eq!(base, query_space_hash(&parse_queries(reordered, &s).unwrap()));
}

#[test]
fn every_rejection_path_is_loud_and_specific() {
    let s = records();
    let cases: &[(&str, &str)] = &[
        ("SELECT id, value FROM records WHERE id = $1;", "without a '-- name:'"),
        (
            "-- name: q :many\nSELECT id, value FROM records WHERE id = $1;",
            "unknown result kind",
        ),
        ("-- name: q\nSELECT id, value FROM records WHERE id = $1;", "expected '-- name:"),
        (
            "-- name: q :one\nSELECT id, value FROM records WHERE id = $1;\n-- name: q :one\nSELECT id, value FROM records WHERE id = $1;",
            "duplicate query name",
        ),
        ("-- name: q :one\nSELECT id, value FROM records WHERE id = $1", "no terminating ';'"),
        ("-- name: q :one\nSELECT id, value FROM users WHERE id = $1;", "must be exactly"),
        ("-- name: q :one\nSELECT id FROM records WHERE id = $1;", "must be exactly"),
        ("-- name: q :one\nSELECT value, id FROM records WHERE id = $1;", "must be exactly"),
        ("-- name: q :one\nSELECT id, value FROM records WHERE value = $1;", "must be exactly"),
        ("-- name: q :one\nSELECT id, value FROM records WHERE id = $2;", "must be exactly"),
        ("-- name: q :exec\nSELECT id, value FROM records WHERE id = $1;", "must be ':one'"),
        (
            "-- name: q :one\nINSERT INTO records (id, value) VALUES ($1, $2);",
            "must be ':exec'",
        ),
        (
            "-- name: q :exec\nINSERT INTO records (id, value) VALUES ($2, $1);",
            "must be exactly",
        ),
        ("-- name: q :exec\nINSERT INTO records (id) VALUES ($1);", "must be exactly"),
        ("-- name: q :exec\nDELETE FROM records WHERE id = $1;", "unsupported statement"),
        (
            "-- name: q :exec\nUPDATE records SET value = $2 WHERE id = $1;",
            "unsupported statement",
        ),
        ("-- just comments\n", "may not be empty"),
    ];
    for (sql, needle) in cases {
        match parse_queries(sql, &s) {
            Err(e) => assert!(
                e.msg.contains(needle),
                "error for {sql:?} should mention {needle:?}, got: {}",
                e.to_text()
            ),
            Ok(q) => panic!("{sql:?} should not parse, got {q:?}"),
        }
    }
}

#[test]
fn query_errors_carry_their_exact_text() {
    let s = records();
    let cases: &[(&str, usize, &str)] = &[
        ("-- the name: q :one", 1, "malformed name annotation: \"the name: q :one\" (write '-- name: <ident> :one|:exec')"),
        ("\n-- name: Q :one", 2, "query name \"Q\" must be lower_snake_case ascii"),
        ("-- name: a :one\n-- name: b :one", 2, "query \"a\" (line 1) has no terminating ';'"),
        ("-- name: a :one\n;", 1, "query \"a\": unsupported statement \";\"; the v1 operation space is SELECT-by-primary-key and INSERT"),
        (
            "-- name: a :one\nselect *;",
            1,
            "query \"a\": v1 SELECT must be exactly 'SELECT id, value FROM records WHERE id = $1;' (all columns, schema order, primary-key equality); got tokens [\"select\", \"*\", \";\"]",
        ),
        (
            "-- name: a :exec\ninsert into;",
            1,
            "query \"a\": v1 INSERT must be exactly 'INSERT INTO records (id, value) VALUES ($1, $2);' (all columns, schema order, sequential params); got tokens [\"insert\", \"into\", \";\"]",
        ),
    ];
    for (sql, line, msg) in cases {
        let e = parse_queries(sql, &s).expect_err(sql);
        assert_eq!((e.line, e.msg.as_str()), (*line, *msg), "{sql:?}");
    }
}

#[test]
fn the_client_surface_is_emitted_whole() {
    let s = records();
    let queries = parse_queries(QUERIES_SQL, &s).unwrap();
    let code = emit_queries_rust(&s, &queries, "schema/queries.sql");
    let expected = "// @generated by dabqlite-codegen from schema/queries.sql. DO NOT EDIT.\n\
        // The complete, finite operation space (docs/DESIGN.md §4.3):\n\
        // nothing outside this module can ever be asked of the engine.\n\n\
        /// Every operation the compiled client surface exposes.\n\
        pub const OPERATIONS: &[&str] = &[\"get_record\", \"insert_record\"];\n\
        /// Two binaries agree on the operation space iff these match.\n\
        pub const QUERY_SPACE_HASH: u64 = 0xF264F4E26128E03F;\n\n\
        /// `-- name: get_record :one` — SELECT one `records` row by primary key.\n\
        /// Answered by `GetDone`; pure in-memory, no I/O requests.\n\
        pub fn get_record(id: u64) -> crate::engine::Input<'static> {\n    \
        crate::engine::Input::Get { id }\n}\n\n\
        /// `-- name: insert_record :exec` — INSERT one `records` row. Durably\n\
        /// committed when the engine answers `InsertDone { result: Ok }`.\n\
        pub fn insert_record(id: u64, value: [u8; 16]) -> crate::engine::Input<'static> {\n    \
        crate::engine::Input::Insert { id, value }\n}\n\n";
    assert_eq!(code, expected);
    assert_eq!(QUERY_SPACE_HASH, 0xF264_F4E2_6128_E03F);
}

#[test]
fn a_single_byte_changes_the_hash() {
    let text = b"dabqlite-schema-v1;table=records;";
    let base = fnv1a64(text);
    for at in 0..text.len() {
        for bit in 0..8 {
            let mut other = *text;
            other[at] ^= 1 << bit;
            assert_ne!(fnv1a64(&other), base, "byte {at} bit {bit}");
        }
    }
    assert_eq!(fnv1a64(b""), 0xcbf2_9ce4_8422_2325);
    assert_eq!(fnv1a64(b"a"), 0xaf63_dc4c_8601_ec8c);
}

#[test]
fn two_bytes_side_by_side_change_the_hash() {
    let text = b"dabqlite-schema-v1;table=records;id:u64;value:bytes16;";
    let base = fnv1a64(text);
    for at in 0..text.len() - 1 {
        for first in 0..=255u8 {
            for second in [0u8, 1, b'2', b'3', b'6', 0x80, 0xFF] {
                if (first, second) != (text[at], text[at + 1]) {
                    let mut other = *text;
                    other[at] = first;
                    other[at + 1] = second;
                    assert_ne!(fnv1a64(&other), base, "bytes {at}: {first} {second}");
                }
            }
        }
    }
}
