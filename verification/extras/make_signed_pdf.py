"""Writes the signed PDF of tests/signed.rs: one page, one signature field,
signed (adbe.pkcs7.detached, RSA with SHA-256) by a self-signed certificate
made on the spot, and prints it as hexadecimal."""

import datetime
from cryptography import x509
from cryptography.x509.oid import NameOID
from cryptography.hazmat.primitives import hashes, serialization
from cryptography.hazmat.primitives.asymmetric import rsa
from cryptography.hazmat.primitives.serialization import pkcs7

key = rsa.generate_private_key(public_exponent=65537, key_size=2048)
name = x509.Name([
    x509.NameAttribute(NameOID.COMMON_NAME, "Maria Silva"),
    x509.NameAttribute(NameOID.ORGANIZATION_NAME, "Tsuro Demo"),
])
cert = (
    x509.CertificateBuilder()
    .subject_name(name)
    .issuer_name(name)
    .public_key(key.public_key())
    .serial_number(0x1234ABCD)
    .not_valid_before(datetime.datetime(2024, 1, 1, tzinfo=datetime.timezone.utc))
    .not_valid_after(datetime.datetime(2034, 1, 1, tzinfo=datetime.timezone.utc))
    .sign(key, hashes.SHA256())
)

SIG_HEX_LEN = 3072
objects = [
    b"<< /Type /Catalog /Pages 2 0 R /AcroForm << /Fields [4 0 R] /SigFlags 3 >> >>",
    b"<< /Type /Pages /Kids [3 0 R] /Count 1 >>",
    b"<< /Type /Page /Parent 2 0 R /MediaBox [0 0 200 200] /Annots [4 0 R] >>",
    b"<< /Type /Annot /Subtype /Widget /FT /Sig /T (Assinatura1) /Rect [0 0 0 0] /P 3 0 R /V 5 0 R >>",
    None,
]
BR_PLACEHOLDER = b"[0000000000 0000000000 0000000000 0000000000]"
sig_dict = (
    b"<< /Type /Sig /Filter /Adobe.PPKLite /SubFilter /adbe.pkcs7.detached "
    b"/Name (Maria Silva) /Reason (Contrato) /Location (Sao Paulo) /M (D:20240131235959+03'00') "
    b"/ByteRange " + BR_PLACEHOLDER + b" /Contents <" + b"0" * SIG_HEX_LEN + b"> >>"
)
objects[4] = sig_dict

out = bytearray(b"%PDF-1.7\n")
offsets = []
for i, body in enumerate(objects, start=1):
    offsets.append(len(out))
    out += b"%d 0 obj\n" % i + body + b"\nendobj\n"
xref = len(out)
out += b"xref\n0 %d\n" % (len(objects) + 1)
out += b"0000000000 65535 f \n"
for off in offsets:
    out += b"%010d 00000 n \n" % off
out += b"trailer\n<< /Size %d /Root 1 0 R >>\nstartxref\n%d\n%%%%EOF\n" % (len(objects) + 1, xref)

start = out.index(b"/Contents <") + len(b"/Contents ")
end = start + SIG_HEX_LEN + 2
br = [0, start, end, len(out) - end]
br_text = b"[%010d %010d %010d %010d]" % tuple(br)
assert len(br_text) == len(BR_PLACEHOLDER)
p = out.index(BR_PLACEHOLDER)
out[p:p + len(BR_PLACEHOLDER)] = br_text

signed = bytes(out[0:start]) + bytes(out[end:])
cms = (
    pkcs7.PKCS7SignatureBuilder()
    .set_data(signed)
    .add_signer(cert, key, hashes.SHA256())
    .sign(serialization.Encoding.DER, [pkcs7.PKCS7Options.DetachedSignature, pkcs7.PKCS7Options.NoCapabilities, pkcs7.PKCS7Options.Binary])
)
hexsig = cms.hex().encode()
assert len(hexsig) <= SIG_HEX_LEN
out[start + 1:start + 1 + len(hexsig)] = hexsig
print(bytes(out).hex())
