use vstd::prelude::*;
use vstd::std_specs::cmp::PartialEqSpec;

verus! {

/// The reasons for which emulation raises an exception.
#[derive(Clone, Copy, Debug)]
pub enum ExceptionType {
    Int3,
    Div0,
    SignChangeOnDivision,
    PopfCannotReadStack,
    WritingWord,
    SettingRipToNonMappedAddr,
    QWordDereferencing,
    DWordDereferencing,
    WordDereferencing,
    ByteDereferencing,
    BadAddressDereferencing,
    SettingXmmOperand,
    ReadingXmmOperand,
}

impl ExceptionType {
    /// Position of the variant in the declaration order.
    pub open spec fn ordinal(self) -> int {
        match self {
            ExceptionType::Int3 => 0,
            ExceptionType::Div0 => 1,
            ExceptionType::SignChangeOnDivision => 2,
            ExceptionType::PopfCannotReadStack => 3,
            ExceptionType::WritingWord => 4,
            ExceptionType::SettingRipToNonMappedAddr => 5,
            ExceptionType::QWordDereferencing => 6,
            ExceptionType::DWordDereferencing => 7,
            ExceptionType::WordDereferencing => 8,
            ExceptionType::ByteDereferencing => 9,
            ExceptionType::BadAddressDereferencing => 10,
            ExceptionType::SettingXmmOperand => 11,
            ExceptionType::ReadingXmmOperand => 12,
        }
    }

    /// The position of the variant, used to compare two exception kinds.
    pub fn code(&self) -> (r: u32)
        ensures
            r == self.ordinal(),
    {
        match self {
            ExceptionType::Int3 => 0,
            ExceptionType::Div0 => 1,
            ExceptionType::SignChangeOnDivision => 2,
            ExceptionType::PopfCannotReadStack => 3,
            ExceptionType::WritingWord => 4,
            ExceptionType::SettingRipToNonMappedAddr => 5,
            ExceptionType::QWordDereferencing => 6,
            ExceptionType::DWordDereferencing => 7,
            ExceptionType::WordDereferencing => 8,
            ExceptionType::ByteDereferencing => 9,
            ExceptionType::BadAddressDereferencing => 10,
            ExceptionType::SettingXmmOperand => 11,
            ExceptionType::ReadingXmmOperand => 12,
        }
    }

    /// The human readable description of the exception.
    pub open spec fn description(self) -> Seq<char> {
        match self {
            ExceptionType::Int3 => "int 3"@,
            ExceptionType::Div0 => "division by zero"@,
            ExceptionType::SignChangeOnDivision => "sign change exception on division"@,
            ExceptionType::PopfCannotReadStack => "popf cannot read stack"@,
            ExceptionType::WritingWord => "exception writing word"@,
            ExceptionType::SettingRipToNonMappedAddr => "setting rip to non mapped addr"@,
            ExceptionType::QWordDereferencing => "error dereferencing qword"@,
            ExceptionType::DWordDereferencing => "error dereferencing dword"@,
            ExceptionType::WordDereferencing => "error dereferencing word"@,
            ExceptionType::ByteDereferencing => "error dereferencing byte"@,
            ExceptionType::BadAddressDereferencing => "exception dereferencing bad address"@,
            ExceptionType::SettingXmmOperand => "exception setting xmm operand"@,
            ExceptionType::ReadingXmmOperand => "exception reading xmm operand"@,
        }
    }

    /// The description that the exception is displayed with.
    pub fn to_string(&self) -> (s: String)
        ensures
            s@ == self.description(),
    {
        match self {
            ExceptionType::Int3 => String::from_str("int 3"),
            ExceptionType::Div0 => String::from_str("division by zero"),
            ExceptionType::SignChangeOnDivision => String::from_str("sign change exception on division"),
            ExceptionType::PopfCannotReadStack => String::from_str("popf cannot read stack"),
            ExceptionType::WritingWord => String::from_str("exception writing word"),
            ExceptionType::SettingRipToNonMappedAddr => String::from_str("setting rip to non mapped addr"),
            ExceptionType::QWordDereferencing => String::from_str("error dereferencing qword"),
            ExceptionType::DWordDereferencing => String::from_str("error dereferencing dword"),
            ExceptionType::WordDereferencing => String::from_str("error dereferencing word"),
            ExceptionType::ByteDereferencing => String::from_str("error dereferencing byte"),
            ExceptionType::BadAddressDereferencing => String::from_str("exception dereferencing bad address"),
            ExceptionType::SettingXmmOperand => String::from_str("exception setting xmm operand"),
            ExceptionType::ReadingXmmOperand => String::from_str("exception reading xmm operand"),
        }
    }
}

impl PartialEq for ExceptionType {
    fn eq(&self, other: &Self) -> (r: bool) {
        self.code() == other.code()
    }
}

impl vstd::std_specs::cmp::PartialEqSpecImpl for ExceptionType {
    open spec fn obeys_eq_spec() -> bool {
        true
    }

    open spec fn eq_spec(&self, other: &Self) -> bool {
        self.ordinal() == other.ordinal()
    }
}

/// Two exception kinds compare equal exactly when they are the same variant.
pub proof fn lemma_exception_eq_is_identity(a: ExceptionType, b: ExceptionType)
    ensures
        a.eq_spec(&b) <==> a == b,
{
}

} // verus!
