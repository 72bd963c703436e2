use timetracker::queries::SQL_CREATE_ACT;
use timetracker::queries::SQL_CREATE_HIS;
use timetracker::queries::SQL_TABLEN_ACT;
use timetracker::queries::SQL_TABLEN_HIS;

#[test]
fn creationquery_contains_tablename() {
    assert!(SQL_CREATE_ACT.to_string().contains(SQL_TABLEN_ACT));
    assert!(SQL_CREATE_HIS.to_string().contains(SQL_TABLEN_HIS));
}
