//! End-to-end tests against a real relational store: the visible-asset
//! stream, resumption, per-row failures, the lazy point lookup, and cursor
//! release on early drop.

use photoslibrary::{
    extra_sql, interpret_extra_row, map_row, visible_sql, ColumnValue, ExtraCell, LookupError,
    MappingError, Photo, PhotoExtra, QueryOptions, TimestampField,
};

fn to_column(v: libsql::Value) -> ColumnValue {
    match v {
        libsql::Value::Integer(i) => ColumnValue::Integer(i),
        libsql::Value::Text(s) => ColumnValue::Text(s),
        libsql::Value::Null => ColumnValue::Null,
        _ => ColumnValue::Other,
    }
}

/// A library of three plainly visible assets (pk 1, 2, 3), one hidden asset
/// (pk 4), one trashed asset (pk 5), one with a non-standard visibility
/// state (pk 6), and one visible asset whose created timestamp is garbage
/// (pk 7). The joined table knows the original filenames of pk 1..3 only.
async fn setup() -> libsql::Connection {
    let db = libsql::Builder::new_local(":memory:").build().await.unwrap();
    let conn = db.connect().unwrap();
    conn.execute(
        "CREATE TABLE ZASSET (Z_PK INTEGER PRIMARY KEY, ZUUID TEXT, ZKIND INTEGER, \
         ZUNIFORMTYPEIDENTIFIER TEXT, ZKINDSUBTYPE INTEGER, ZDIRECTORY TEXT, ZFILENAME TEXT, \
         ZDATECREATED TEXT, ZMODIFICATIONDATE TEXT, ZADDEDDATE TEXT, ZHEIGHT INTEGER, \
         ZWIDTH INTEGER, ZTRASHEDSTATE INTEGER, ZHIDDEN INTEGER, ZVISIBILITYSTATE INTEGER)",
        (),
    )
    .await
    .unwrap();
    let rows = [
        (1, "683839201", 0, 0, 0),
        (2, "683839202", 0, 0, 0),
        (3, "683839203", 0, 0, 0),
        (4, "683839204", 0, 1, 0),
        (5, "683839205", 1, 0, 0),
        (6, "683839206", 0, 0, 2),
        (7, "garbage", 0, 0, 0),
    ];
    for (pk, created, trashed, hidden, visibility) in rows {
        conn.execute(
            &format!(
                "INSERT INTO ZASSET VALUES ({pk}, 'UUID-{pk}', 0, 'public.jpeg', 0, '0/00', \
                 'IMG_000{pk}.jpeg', '{created}', '0.5', '86400', 100, 200, {trashed}, \
                 {hidden}, {visibility})"
            ),
            (),
        )
        .await
        .unwrap();
    }
    conn.execute(
        "CREATE TABLE ZADDITIONALASSETATTRIBUTES (ZASSET INTEGER, ZORIGINALFILENAME TEXT)",
        (),
    )
    .await
    .unwrap();
    for pk in [1, 2, 3] {
        conn.execute(
            &format!("INSERT INTO ZADDITIONALASSETATTRIBUTES VALUES ({pk}, 'orig_{pk}.jpeg')"),
            (),
        )
        .await
        .unwrap();
    }
    conn
}

async fn drain(
    conn: &libsql::Connection,
    opts: QueryOptions,
) -> Vec<Result<Photo, MappingError>> {
    let sql = visible_sql(&opts);
    let mut stmt = conn.prepare(&sql).await.unwrap();
    let mut rows = match opts.after_pk {
        Some(pk) => stmt.query([pk]).await.unwrap(),
        None => stmt.query(()).await.unwrap(),
    };
    let mut out = vec![];
    while let Some(row) = rows.next().await.unwrap() {
        let mut cols = Vec::new();
        for i in 0..12 {
            cols.push(to_column(row.get_value(i).unwrap()));
        }
        out.push(map_row(&cols));
    }
    out
}

async fn fetch_extra(conn: &libsql::Connection, pk: i64, calls: &mut usize) -> Option<ColumnValue> {
    *calls += 1;
    let mut stmt = conn.prepare(extra_sql()).await.unwrap();
    match stmt.query_row([pk]).await {
        Ok(row) => Some(to_column(row.get_value(0).unwrap())),
        Err(libsql::Error::QueryReturnedNoRows) => None,
        Err(e) => panic!("store failure: {e}"),
    }
}

async fn extra_of(
    conn: &libsql::Connection,
    cell: &mut ExtraCell,
    pk: i64,
    calls: &mut usize,
) -> Result<PhotoExtra, LookupError> {
    if cell.needs_fetch() {
        let row = fetch_extra(conn, pk, calls).await;
        cell.fill(interpret_extra_row(row)?);
    }
    Ok(cell.get().unwrap().clone())
}

#[test]
fn only_visible_assets_stream_in_ascending_pk_order() {
    let rt = tokio::runtime::Runtime::new().unwrap();
    rt.block_on(async {
        let conn = setup().await;
        let mapped = drain(&conn, QueryOptions { after_pk: None }).await;
        assert_eq!(mapped.len(), 4);
        let ok_pks: Vec<i64> = mapped[..3].iter().map(|r| r.as_ref().unwrap().pk).collect();
        assert_eq!(ok_pks, vec![1, 2, 3]);
        assert_eq!(mapped[0].as_ref().unwrap().uuid, "UUID-1");
        match &mapped[3] {
            Err(MappingError::BadTimestamp { field, filename, .. }) => {
                assert_eq!(*field, TimestampField::Created);
                assert_eq!(filename, "IMG_0007.jpeg");
            },
            other => panic!("expected the garbage timestamp row to fail, got {other:?}"),
        }
    });
}

#[test]
fn resuming_after_a_checkpoint_skips_earlier_pks() {
    let rt = tokio::runtime::Runtime::new().unwrap();
    rt.block_on(async {
        let conn = setup().await;
        let mapped = drain(&conn, QueryOptions { after_pk: Some(2) }).await;
        let pks: Vec<i64> = mapped
            .iter()
            .filter_map(|r| r.as_ref().ok().map(|p| p.pk))
            .collect();
        assert_eq!(pks, vec![3]);
    });
}

#[test]
fn the_extra_lookup_is_memoized_per_record() {
    let rt = tokio::runtime::Runtime::new().unwrap();
    rt.block_on(async {
        let conn = setup().await;
        let mut cell = ExtraCell::new();
        let mut calls = 0usize;
        let first = extra_of(&conn, &mut cell, 2, &mut calls).await.unwrap();
        assert_eq!(first.original_filename, "orig_2.jpeg");
        assert_eq!(calls, 1);
        let second = extra_of(&conn, &mut cell, 2, &mut calls).await.unwrap();
        assert_eq!(second.original_filename, "orig_2.jpeg");
        assert_eq!(calls, 1, "the second access must make zero store round-trips");
    });
}

#[test]
fn a_record_without_extra_attributes_reports_not_found() {
    let rt = tokio::runtime::Runtime::new().unwrap();
    rt.block_on(async {
        let conn = setup().await;
        let mut cell = ExtraCell::new();
        let mut calls = 0usize;
        let r = extra_of(&conn, &mut cell, 4, &mut calls).await;
        assert_eq!(r.unwrap_err(), LookupError::NotFound);
        // nothing was memoized, so a later access may try again
        assert!(cell.needs_fetch());
    });
}

#[test]
fn dropping_a_stream_early_leaves_the_store_usable() {
    let rt = tokio::runtime::Runtime::new().unwrap();
    rt.block_on(async {
        let conn = setup().await;
        {
            let sql = visible_sql(&QueryOptions { after_pk: None });
            let mut stmt = conn.prepare(&sql).await.unwrap();
            let mut rows = stmt.query(()).await.unwrap();
            let first = rows.next().await.unwrap().unwrap();
            assert_eq!(first.get_value(0).unwrap(), libsql::Value::Integer(1));
            // the remaining rows are abandoned here
        }
        let mapped = drain(&conn, QueryOptions { after_pk: None }).await;
        assert_eq!(mapped.len(), 4);
        assert_eq!(mapped[0].as_ref().unwrap().pk, 1);
    });
}
