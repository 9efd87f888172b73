use base64::Engine;
use tsuro::pdfload::analyze_pdf;
use tsuro::pdfsig::hash_byte_range_sha256;
use tsuro::sign::{PdfAnalysis, SigError, SignatureStatus};
use tsuro::verify::{verify_cms, verify_cms_b64};

/// Loads `bytes` with lopdf, as the reader does, and analyses them.
fn analyze(bytes: &[u8]) -> Result<PdfAnalysis, SigError> {
    analyze_pdf(bytes, lopdf::Document::load_mem(bytes).map_err(|e| e.to_string()))
}

/// A one-page PDF with one signature field, signed (`adbe.pkcs7.detached`,
/// RSA with SHA-256) by the self-signed certificate of "Maria Silva", as
/// hexadecimal.
const SIGNED_PDF: &str = "\
    255044462d312e370a312030206f626a0a3c3c202f54797065202f436174616c6f67202f506167657320322030205220\
    2f4163726f466f726d203c3c202f4669656c6473205b34203020525d202f536967466c6167732033203e3e203e3e0a65\
    6e646f626a0a322030206f626a0a3c3c202f54797065202f5061676573202f4b696473205b33203020525d202f436f75\
    6e742031203e3e0a656e646f626a0a332030206f626a0a3c3c202f54797065202f50616765202f506172656e74203220\
    302052202f4d65646961426f78205b30203020323030203230305d202f416e6e6f7473205b34203020525d203e3e0a65\
    6e646f626a0a342030206f626a0a3c3c202f54797065202f416e6e6f74202f53756274797065202f576964676574202f\
    4654202f536967202f542028417373696e61747572613129202f52656374205b302030203020305d202f502033203020\
    52202f56203520302052203e3e0a656e646f626a0a352030206f626a0a3c3c202f54797065202f536967202f46696c74\
    6572202f41646f62652e50504b4c697465202f53756246696c746572202f616462652e706b6373372e64657461636865\
    64202f4e616d6520284d617269612053696c766129202f526561736f6e2028436f6e747261746f29202f4c6f63617469\
    6f6e202853616f205061756c6f29202f4d2028443a32303234303133313233353935392b30332730302729202f427974\
    6552616e6765205b30303030303030303030203030303030303035393120303030303030333636352030303030303030\
    3139355d202f436f6e74656e7473203c3330383230346462303630393261383634383836663730643031303730326130\
    383230346363333038323034633830323031303133313066333030643036303936303836343830313635303330343032\
    303130353030333030623036303932613836343838366637306430313037303161303832303264363330383230326432\
    333038323031626161303033303230313032303230343132333461626364333030643036303932613836343838366637\
    306430313031306230353030333032623331313433303132303630333535303430333063306234643631373236393631\
    323035333639366337363631333131333330313130363033353530343061306330613534373337353732366632303434\
    363536643666333031653137306433323334333033313330333133303330333033303330333035613137306433333334\
    333033313330333133303330333033303330333035613330326233313134333031323036303335353034303330633062\
    346436313732363936313230353336393663373636313331313333303131303630333535303430613063306135343733\
    373537323666323034343635366436663330383230313232333030643036303932613836343838366637306430313031\
    303130353030303338323031306630303330383230313061303238323031303130306132666633356338643337653437\
    646136613764393066333636613834343861663566376363316162386263396532303037393734653334666432363866\
    613637656430633331313263336161336532646566366465646231343838393361346538323333663235366362633337\
    356162666537623561383739363039393965663865383139386131306365336130663763383539333239633465366165\
    623461333062313133356131613938653031613438373235343839653266646436343637306130656530666139353232\
    393231633337326263636564613961303233623036376161653566373638643964656266353561633365343338363462\
    656631373263656265393638383839316333663433363862393565336239316137613264613965363737666466336230\
    333463313063336636393939616462313132343463383037316631343235303733623264613034336339366532316466\
    393832373065373232376433346638626133303837363933656632373935393131306235643332653939346262356563\
    303133656364313965383562313331356466313061633864666261366663643937373366636631643832303330303463\
    613565303935316531333964373230633739306232393061303362333661383466366431373830396433363832653738\
    393666376239336132323739373233633664303230333031303030313330306430363039326138363438383666373064\
    303130313062303530303033383230313031303035643464663832653964366630306436346537643034643863663263\
    353830333233613861663563666536383034383337393735613139373463333364376130316532353335303632313533\
    323939396633633638663738616633626331343836356130343465653635356364306564663163643531386138636163\
    343538373332626331643462656539613331616335346365343761626631366138376233383136306332366539383437\
    346561333566386639626331613631643136366461393332666165306232366466323262623835313636393436623433\
    383464343136343363323162346436636530623261396135636166303034373831366662623733383633326137366331\
    623962336238626431306133376363363163623461666432643661303133656236386264366634326164393462326634\
    663366383963346330353432623130336639363062643532616162616661663666386439643836656565386634373639\
    653635326530336531323536326330646131356335626131356435343537666636656462366132646465666435323063\
    623034353364643632653462333665666136653362643761303562366632663333353238663234383865363833633962\
    323130373131366630346266613538366239356237363162383836383238346430323434666133383161616131353333\
    373638353331383230316339333038323031633530323031303133303333333032623331313433303132303630333535\
    303430333063306234643631373236393631323035333639366337363631333131333330313130363033353530343061\
    306330613534373337353732366632303434363536643666303230343132333461626364333030643036303936303836\
    343830313635303330343032303130353030613036393330313830363039326138363438383666373064303130393033\
    333130623036303932613836343838366637306430313037303133303163303630393261383634383836663730643031\
    303930353331306631373064333233363331333133313338333133303334333533333333356133303266303630393261\
    383634383836663730643031303930343331323230343230393861386666373732633732303261316466303333636638\
    393433393766366363303636373162306437313533376331343663386663323737363662386432373330306430363039\
    326138363438383666373064303130313031303530303034383230313030333431383561623365343865393333396164\
    643866396562303034333933396139643763653165393662653239363762666130323335646466353832313136666262\
    633766326264393336653635613136346162363439333262346633303938626263356236343033343733383531663338\
    326664336236633062626433623630623863326530656337383665383535666161343437666536613635636136333131\
    316432346265316365663831353139386265393831373266643035326161376335373837623265323163356431656530\
    373561643064353735623832343232613932313736333639353936643664383163373366393137633535636666353233\
    663666313134366234613662383733613063343839346533323933616330393565323463643136643238663839383231\
    646431373732323164613434386231653261633530626139386262396266393930366532636235376637623132316638\
    643263333965343466376631346466326234336633383565343334383664396162353739653138613832663935663862\
    396466376366373332303932316633396464663638383836633833666132373262343233303464646235373837323064\
    323662616264306362616235636462393534646339306264333031393534363966363337656335336230393933356233\
    643230393063623730326531636330303030303030303030303030303030303030303030303030303030303030303030\
    303030303030303030303030303030303030303030303030303030303030303030303030303030303030303030303030\
    303030303030303030303030303030303030303030303030303030303030303030303030303030303030303030303030\
    303030303030303030303030303030303030303030303030303030303030303030303030303030303030303030303030\
    303030303030303030303030303030303030303030303030303030303030303030303030303030303030303030303030\
    303030303030303030303030303030303030303030303030303030303030303030303030303030303030303030303030\
    303030303030303030303030303030303030303030303030303030303030303030303030303030303030303030303030\
    303030303030303030303030303030303030303030303030303030303030303030303030303030303030303030303030\
    303030303030303030303030303030303030303030303030303030303030303030303030303030303030303030303030\
    303030303030303030303030303030303030303030303030303030303030303030303030303030303030303030303030\
    303030303030303030303030303030303030303030303030303030303030303030303030303030303030303030303030\
    303030303030303030303030303030303030303030303030303030303030303030303030303030303030303030303030\
    303030303030303030303030303030303e203e3e0a656e646f626a0a787265660a3020360a3030303030303030303020\
    36353533352066200a30303030303030303039203030303030206e200a30303030303030313032203030303030206e20\
    0a30303030303030313539203030303030206e200a30303030303030323436203030303030206e200a30303030303030\
    333537203030303030206e200a747261696c65720a3c3c202f53697a652036202f526f6f74203120302052203e3e0a73\
    74617274787265660a333637360a2525454f460a";

fn signed_pdf() -> Vec<u8> {
    (0..SIGNED_PDF.len())
        .step_by(2)
        .map(|i| u8::from_str_radix(&SIGNED_PDF[i..i + 2], 16).expect("hex"))
        .collect()
}

#[test]
fn self_signed_contract_is_intact_but_untrusted() {
    let bytes = signed_pdf();
    let analysis = analyze(&bytes).expect("parse");
    assert!(analysis.has_acro_form);
    assert_eq!(analysis.page_count_hint, Some(1));
    assert_eq!(analysis.signatures.len(), 1);
    let sig = &analysis.signatures[0];
    assert!(sig.covers_whole_document, "{}", sig.status_detail);
    assert_eq!(sig.status, SignatureStatus::IntactButUntrusted, "{}", sig.status_detail);
    assert_eq!(sig.field_name.as_deref(), Some("Assinatura1"));
    assert_eq!(sig.signer_name.as_deref(), Some("Maria Silva"));
    assert_eq!(sig.reason.as_deref(), Some("Contrato"));
    assert_eq!(sig.location.as_deref(), Some("Sao Paulo"));
    assert_eq!(sig.signing_time.as_deref(), Some("2024-01-31 23:59:59"));
    assert_eq!(sig.sub_filter.as_deref(), Some("adbe.pkcs7.detached"));
    assert_eq!(sig.digest_algorithm.as_deref(), Some("SHA-256"));
    let cert = sig.certificate.as_ref().expect("certificate");
    assert_eq!(cert.common_name.as_deref(), Some("Maria Silva"));
    assert_eq!(cert.organization.as_deref(), Some("Tsuro Demo"));
    assert!(cert.is_self_signed);
    assert!(cert.subject.contains("Maria Silva"), "{}", cert.subject);
}

#[test]
fn changed_byte_in_signed_range_is_detected() {
    let mut bytes = signed_pdf();
    // a byte of the page's media box, inside the first signed range
    let at = bytes.windows(7).position(|w| w == b"0 0 200").expect("media box") + 4;
    bytes[at] = b'3';
    let analysis = analyze(&bytes).expect("parse");
    assert_eq!(analysis.signatures.len(), 1);
    assert_eq!(analysis.signatures[0].status, SignatureStatus::DocumentModified);
}

/// The byte range of the signature, and its CMS blob (with the padding
/// that follows it in `/Contents`).
fn signature_parts(bytes: &[u8]) -> ([i64; 4], Vec<u8>) {
    let analysis = analyze(bytes).expect("parse");
    let br = analysis.signatures[0].byte_range.expect("byte range");
    let contents = std::str::from_utf8(&bytes[(br[1] + 1) as usize..(br[2] - 1) as usize]).expect("hex text");
    let pkcs7 = (0..contents.len())
        .step_by(2)
        .map(|i| u8::from_str_radix(&contents[i..i + 2], 16).expect("hex"))
        .collect();
    (br, pkcs7)
}

#[test]
fn detached_signature_checks_from_base64_and_hex() {
    let bytes = signed_pdf();
    let (br, pkcs7) = signature_parts(&bytes);
    let digest = hash_byte_range_sha256(&bytes, br);
    let hex: String = digest.iter().map(|b| format!("{b:02X}")).collect();
    let b64 = base64::engine::general_purpose::STANDARD.encode(&pkcs7);
    let info = verify_cms_b64(&b64, &hex).expect("checks");
    assert_eq!(info.status, SignatureStatus::IntactButUntrusted, "{}", info.status_detail);
    assert_eq!(info.signer_name.as_deref(), Some("Maria Silva"));
    assert_eq!(info.signature_algorithm.as_deref(), Some("RSA"));
}

#[test]
fn signature_over_other_content_is_refused() {
    let (_, pkcs7) = signature_parts(&signed_pdf());
    // the digest of other content: the signed attributes no longer match it
    let other = [0u8; 32];
    let info = verify_cms(&pkcs7, Some(&other), None).expect("readable CMS");
    assert_eq!(info.status, SignatureStatus::DocumentModified, "{}", info.status_detail);
    assert_eq!(info.certificate.and_then(|c| c.common_name).as_deref(), Some("Maria Silva"));
}
