//! The error every fallible operation of the library reports.

use vstd::prelude::*;

verus! {

/// Every fallible operation funnels through this type so the user interface
/// always receives a plain, human-readable message.
#[derive(Debug)]
pub enum AppError {
    /// A file could not be read or written (the operating system's message).
    Io(String),
    /// Data could not be (de)serialised.
    Serde(String),
    Xml(String),
    Crypto(String),
    Locked,
    NoVault,
    VaultExists,
    InvalidPassword,
    NotFound(String),
    Msg(String),
    /// A password that breaks a rule: which check (`password-rule`,
    /// `password-cycle`), what to tell the user and each problem found.
    Validation(String, String, Vec<String>),
}

pub type AppResult<T> = Result<T, AppError>;

pub open spec fn message_spec(e: AppError) -> Seq<char> {
    match e {
        AppError::Io(m) => "文件读写失败："@ + m@,
        AppError::Serde(m) => "数据序列化失败："@ + m@,
        AppError::Xml(m) => "XML 解析失败："@ + m@,
        AppError::Crypto(m) => "加密操作失败："@ + m@,
        AppError::Locked => "保险库尚未解锁"@,
        AppError::NoVault => "尚未创建保险库"@,
        AppError::VaultExists => "保险库已存在"@,
        AppError::InvalidPassword => "主密码不正确"@,
        AppError::NotFound(m) => "未找到："@ + m@,
        AppError::Msg(m) => m@,
        AppError::Validation(_, m, _) => m@,
    }
}

fn prefixed(prefix: &str, m: &String) -> (out: String)
    ensures
        out@ == prefix@ + m@,
{
    let mut v = crate::text::chars_of(prefix);
    let w = crate::text::chars_of_string(m);
    crate::text::push_all(&mut v, &w);
    crate::text::string_of(&v)
}

impl AppError {
    /// The text shown to the user (what `Display` printed).
    pub fn message(&self) -> (out: String)
        ensures
            out@ == message_spec(*self),
    {
        match self {
            AppError::Io(m) => prefixed("文件读写失败：", m),
            AppError::Serde(m) => prefixed("数据序列化失败：", m),
            AppError::Xml(m) => prefixed("XML 解析失败：", m),
            AppError::Crypto(m) => prefixed("加密操作失败：", m),
            AppError::Locked => "保险库尚未解锁".to_owned(),
            AppError::NoVault => "尚未创建保险库".to_owned(),
            AppError::VaultExists => "保险库已存在".to_owned(),
            AppError::InvalidPassword => "主密码不正确".to_owned(),
            AppError::NotFound(m) => prefixed("未找到：", m),
            AppError::Msg(m) => m.clone(),
            AppError::Validation(_, m, _) => m.clone(),
        }
    }
}

} // verus!
