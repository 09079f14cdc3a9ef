use zenith::error::{AssetError, ErrorKind};

#[test]
fn errors_render_their_cause_chain() {
    let inner = AssetError::new(ErrorKind::Io, "disk");
    let outer = inner.context("loading a");
    assert_eq!(outer.kind, ErrorKind::Io);
    assert_eq!(outer.describe(), "loading a: disk");
    let foreign = AssetError::caused_by(ErrorKind::InvalidData, "decode asset", "eof");
    assert_eq!(foreign.describe(), "decode asset: eof");
    assert_eq!(AssetError::io("denied").describe(), "asset I/O: denied");
    assert_eq!(AssetError::metadata("x").kind, ErrorKind::InvalidData);
    assert_eq!(foreign.duplicate().describe(), foreign.describe());
}
