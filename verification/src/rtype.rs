//! The enumerated DNS record-type codes.
//!
//! Record types follow the standard DNS assignments.  A type code outside the
//! recognized set is a decode error, never a panic: the conversion from a wire
//! code is fallible.

use vstd::prelude::*;

verus! {

/// A recognized DNS record type.
#[allow(non_camel_case_types)]
#[derive(Debug, PartialEq, Eq, Clone, Copy, Structural)]
pub enum MDNSTYPE {
    A,
    AAAA,
    AFSDB,
    APL,
    CAA,
    CDNSKEY,
    CDS,
    CERT,
    CNAME,
    CSYNC,
    DHCID,
    DLV,
    DNAME,
    DNSKEY,
    DS,
    EUI48,
    EUI64,
    HINFO,
    HIP,
    HTTPS,
    IPSECKEY,
    KEY,
    KX,
    LOC,
    MX,
    NAPTR,
    NS,
    NSEC,
    NSEC3,
    NSEC3PARAM,
    OPENPGPKEY,
    PTR,
    RRSIG,
    RP,
    SIG,
    SMIMEA,
    SOA,
    SRV,
    SSHFP,
    SVCB,
    TA,
    TKEY,
    TLSA,
    TSIG,
    TXT,
    URI,
    ZONEMD,
    ANY,
    AXFR,
    IXFR,
    OPT,
}

impl MDNSTYPE {
    /// The standard 16-bit code assigned to this record type.
    pub open spec fn spec_code(self) -> u16 {
        match self {
            MDNSTYPE::A => 1,
            MDNSTYPE::AAAA => 28,
            MDNSTYPE::AFSDB => 18,
            MDNSTYPE::APL => 42,
            MDNSTYPE::CAA => 257,
            MDNSTYPE::CDNSKEY => 60,
            MDNSTYPE::CDS => 59,
            MDNSTYPE::CERT => 37,
            MDNSTYPE::CNAME => 5,
            MDNSTYPE::CSYNC => 62,
            MDNSTYPE::DHCID => 49,
            MDNSTYPE::DLV => 32769,
            MDNSTYPE::DNAME => 39,
            MDNSTYPE::DNSKEY => 48,
            MDNSTYPE::DS => 43,
            MDNSTYPE::EUI48 => 108,
            MDNSTYPE::EUI64 => 109,
            MDNSTYPE::HINFO => 13,
            MDNSTYPE::HIP => 55,
            MDNSTYPE::HTTPS => 65,
            MDNSTYPE::IPSECKEY => 45,
            MDNSTYPE::KEY => 25,
            MDNSTYPE::KX => 36,
            MDNSTYPE::LOC => 29,
            MDNSTYPE::MX => 15,
            MDNSTYPE::NAPTR => 35,
            MDNSTYPE::NS => 2,
            MDNSTYPE::NSEC => 47,
            MDNSTYPE::NSEC3 => 50,
            MDNSTYPE::NSEC3PARAM => 51,
            MDNSTYPE::OPENPGPKEY => 61,
            MDNSTYPE::PTR => 12,
            MDNSTYPE::RRSIG => 46,
            MDNSTYPE::RP => 17,
            MDNSTYPE::SIG => 24,
            MDNSTYPE::SMIMEA => 53,
            MDNSTYPE::SOA => 6,
            MDNSTYPE::SRV => 33,
            MDNSTYPE::SSHFP => 44,
            MDNSTYPE::SVCB => 64,
            MDNSTYPE::TA => 32768,
            MDNSTYPE::TKEY => 249,
            MDNSTYPE::TLSA => 52,
            MDNSTYPE::TSIG => 250,
            MDNSTYPE::TXT => 16,
            MDNSTYPE::URI => 256,
            MDNSTYPE::ZONEMD => 63,
            MDNSTYPE::ANY => 255,
            MDNSTYPE::AXFR => 252,
            MDNSTYPE::IXFR => 251,
            MDNSTYPE::OPT => 41,
        }
    }

    /// The record type assigned to a 16-bit wire code, if any.
    pub open spec fn spec_from_code(value: u16) -> Option<MDNSTYPE> {
        match value {
            1 => Some(MDNSTYPE::A),
            28 => Some(MDNSTYPE::AAAA),
            18 => Some(MDNSTYPE::AFSDB),
            42 => Some(MDNSTYPE::APL),
            257 => Some(MDNSTYPE::CAA),
            60 => Some(MDNSTYPE::CDNSKEY),
            59 => Some(MDNSTYPE::CDS),
            37 => Some(MDNSTYPE::CERT),
            5 => Some(MDNSTYPE::CNAME),
            62 => Some(MDNSTYPE::CSYNC),
            49 => Some(MDNSTYPE::DHCID),
            32769 => Some(MDNSTYPE::DLV),
            39 => Some(MDNSTYPE::DNAME),
            48 => Some(MDNSTYPE::DNSKEY),
            43 => Some(MDNSTYPE::DS),
            108 => Some(MDNSTYPE::EUI48),
            109 => Some(MDNSTYPE::EUI64),
            13 => Some(MDNSTYPE::HINFO),
            55 => Some(MDNSTYPE::HIP),
            65 => Some(MDNSTYPE::HTTPS),
            45 => Some(MDNSTYPE::IPSECKEY),
            25 => Some(MDNSTYPE::KEY),
            36 => Some(MDNSTYPE::KX),
            29 => Some(MDNSTYPE::LOC),
            15 => Some(MDNSTYPE::MX),
            35 => Some(MDNSTYPE::NAPTR),
            2 => Some(MDNSTYPE::NS),
            47 => Some(MDNSTYPE::NSEC),
            50 => Some(MDNSTYPE::NSEC3),
            51 => Some(MDNSTYPE::NSEC3PARAM),
            61 => Some(MDNSTYPE::OPENPGPKEY),
            12 => Some(MDNSTYPE::PTR),
            46 => Some(MDNSTYPE::RRSIG),
            17 => Some(MDNSTYPE::RP),
            24 => Some(MDNSTYPE::SIG),
            53 => Some(MDNSTYPE::SMIMEA),
            6 => Some(MDNSTYPE::SOA),
            33 => Some(MDNSTYPE::SRV),
            44 => Some(MDNSTYPE::SSHFP),
            64 => Some(MDNSTYPE::SVCB),
            32768 => Some(MDNSTYPE::TA),
            249 => Some(MDNSTYPE::TKEY),
            52 => Some(MDNSTYPE::TLSA),
            250 => Some(MDNSTYPE::TSIG),
            16 => Some(MDNSTYPE::TXT),
            256 => Some(MDNSTYPE::URI),
            63 => Some(MDNSTYPE::ZONEMD),
            255 => Some(MDNSTYPE::ANY),
            252 => Some(MDNSTYPE::AXFR),
            251 => Some(MDNSTYPE::IXFR),
            41 => Some(MDNSTYPE::OPT),
            _ => None,
        }
    }

    /// The standard 16-bit code assigned to this record type.
    pub fn code(self) -> (c: u16)
        ensures
            c == self.spec_code(),
    {
        match self {
            MDNSTYPE::A => 1,
            MDNSTYPE::AAAA => 28,
            MDNSTYPE::AFSDB => 18,
            MDNSTYPE::APL => 42,
            MDNSTYPE::CAA => 257,
            MDNSTYPE::CDNSKEY => 60,
            MDNSTYPE::CDS => 59,
            MDNSTYPE::CERT => 37,
            MDNSTYPE::CNAME => 5,
            MDNSTYPE::CSYNC => 62,
            MDNSTYPE::DHCID => 49,
            MDNSTYPE::DLV => 32769,
            MDNSTYPE::DNAME => 39,
            MDNSTYPE::DNSKEY => 48,
            MDNSTYPE::DS => 43,
            MDNSTYPE::EUI48 => 108,
            MDNSTYPE::EUI64 => 109,
            MDNSTYPE::HINFO => 13,
            MDNSTYPE::HIP => 55,
            MDNSTYPE::HTTPS => 65,
            MDNSTYPE::IPSECKEY => 45,
            MDNSTYPE::KEY => 25,
            MDNSTYPE::KX => 36,
            MDNSTYPE::LOC => 29,
            MDNSTYPE::MX => 15,
            MDNSTYPE::NAPTR => 35,
            MDNSTYPE::NS => 2,
            MDNSTYPE::NSEC => 47,
            MDNSTYPE::NSEC3 => 50,
            MDNSTYPE::NSEC3PARAM => 51,
            MDNSTYPE::OPENPGPKEY => 61,
            MDNSTYPE::PTR => 12,
            MDNSTYPE::RRSIG => 46,
            MDNSTYPE::RP => 17,
            MDNSTYPE::SIG => 24,
            MDNSTYPE::SMIMEA => 53,
            MDNSTYPE::SOA => 6,
            MDNSTYPE::SRV => 33,
            MDNSTYPE::SSHFP => 44,
            MDNSTYPE::SVCB => 64,
            MDNSTYPE::TA => 32768,
            MDNSTYPE::TKEY => 249,
            MDNSTYPE::TLSA => 52,
            MDNSTYPE::TSIG => 250,
            MDNSTYPE::TXT => 16,
            MDNSTYPE::URI => 256,
            MDNSTYPE::ZONEMD => 63,
            MDNSTYPE::ANY => 255,
            MDNSTYPE::AXFR => 252,
            MDNSTYPE::IXFR => 251,
            MDNSTYPE::OPT => 41,
        }
    }

    /// Look a wire code up in the recognized set.
    pub fn from_code(value: u16) -> (t: Option<MDNSTYPE>)
        ensures
            t == MDNSTYPE::spec_from_code(value),
    {
        match value {
            1 => Some(MDNSTYPE::A),
            28 => Some(MDNSTYPE::AAAA),
            18 => Some(MDNSTYPE::AFSDB),
            42 => Some(MDNSTYPE::APL),
            257 => Some(MDNSTYPE::CAA),
            60 => Some(MDNSTYPE::CDNSKEY),
            59 => Some(MDNSTYPE::CDS),
            37 => Some(MDNSTYPE::CERT),
            5 => Some(MDNSTYPE::CNAME),
            62 => Some(MDNSTYPE::CSYNC),
            49 => Some(MDNSTYPE::DHCID),
            32769 => Some(MDNSTYPE::DLV),
            39 => Some(MDNSTYPE::DNAME),
            48 => Some(MDNSTYPE::DNSKEY),
            43 => Some(MDNSTYPE::DS),
            108 => Some(MDNSTYPE::EUI48),
            109 => Some(MDNSTYPE::EUI64),
            13 => Some(MDNSTYPE::HINFO),
            55 => Some(MDNSTYPE::HIP),
            65 => Some(MDNSTYPE::HTTPS),
            45 => Some(MDNSTYPE::IPSECKEY),
            25 => Some(MDNSTYPE::KEY),
            36 => Some(MDNSTYPE::KX),
            29 => Some(MDNSTYPE::LOC),
            15 => Some(MDNSTYPE::MX),
            35 => Some(MDNSTYPE::NAPTR),
            2 => Some(MDNSTYPE::NS),
            47 => Some(MDNSTYPE::NSEC),
            50 => Some(MDNSTYPE::NSEC3),
            51 => Some(MDNSTYPE::NSEC3PARAM),
            61 => Some(MDNSTYPE::OPENPGPKEY),
            12 => Some(MDNSTYPE::PTR),
            46 => Some(MDNSTYPE::RRSIG),
            17 => Some(MDNSTYPE::RP),
            24 => Some(MDNSTYPE::SIG),
            53 => Some(MDNSTYPE::SMIMEA),
            6 => Some(MDNSTYPE::SOA),
            33 => Some(MDNSTYPE::SRV),
            44 => Some(MDNSTYPE::SSHFP),
            64 => Some(MDNSTYPE::SVCB),
            32768 => Some(MDNSTYPE::TA),
            249 => Some(MDNSTYPE::TKEY),
            52 => Some(MDNSTYPE::TLSA),
            250 => Some(MDNSTYPE::TSIG),
            16 => Some(MDNSTYPE::TXT),
            256 => Some(MDNSTYPE::URI),
            63 => Some(MDNSTYPE::ZONEMD),
            255 => Some(MDNSTYPE::ANY),
            252 => Some(MDNSTYPE::AXFR),
            251 => Some(MDNSTYPE::IXFR),
            41 => Some(MDNSTYPE::OPT),
            _ => None,
        }
    }
}

/// Every record type's code maps back to that type: the code assignment is
/// injective over the recognized set.
pub proof fn lemma_type_code_round_trip(t: MDNSTYPE)
    ensures
        MDNSTYPE::spec_from_code(t.spec_code()) == Some(t),
{
}

/// A recognized code decodes to a type that carries exactly that code.
pub proof fn lemma_code_type_round_trip(value: u16)
    ensures
        match MDNSTYPE::spec_from_code(value) {
            Some(t) => t.spec_code() == value,
            None => true,
        },
{
}

} // verus!
