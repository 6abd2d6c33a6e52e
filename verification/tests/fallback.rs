use lsif_indexer::fallback_indexer::{FallbackIndexer, FallbackKind, FallbackLanguage};

#[test]
fn test_rust_fallback() {
    let content = r#"
pub struct User {
    name: String,
}

impl User {
    pub fn new(name: String) -> Self {
        Self { name }
    }
}

pub trait Greet {
    fn greet(&self);
}
"#;
    let indexer = FallbackIndexer::new(FallbackLanguage::Rust);
    let symbols = indexer.extract_symbols(content).unwrap();
    assert!(symbols.len() >= 3);
    assert!(symbols.iter().any(|s| s.name == "User"));
    assert!(symbols.iter().any(|s| s.name.contains("impl")));
    assert!(symbols.iter().any(|s| s.name == "Greet"));
}

#[test]
fn test_python_fallback() {
    let content = r#"
class User:
    def __init__(self, name):
        self.name = name
    
    def greet(self):
        print(f"Hello, {self.name}")

def main():
    user = User("Alice")
    user.greet()
"#;
    let indexer = FallbackIndexer::new(FallbackLanguage::Python);
    let symbols = indexer.extract_symbols(content).unwrap();
    assert!(symbols.len() >= 4);
    assert!(symbols.iter().any(|s| s.name == "User"));
    assert!(symbols.iter().any(|s| s.name == "__init__"));
    assert!(symbols.iter().any(|s| s.name == "greet"));
    assert!(symbols.iter().any(|s| s.name == "main"));
}

#[test]
fn test_typescript_fallback() {
    let content = r#"
interface User {
    name: string;
    age: number;
}

class UserImpl implements User {
    constructor(public name: string, public age: number) {}
    
    greet(): void {
        console.log(`Hello, ${this.name}`);
    }
}

export function createUser(name: string, age: number): User {
    return new UserImpl(name, age);
}

const greetUser = (user: User) => {
    console.log(`Hi ${user.name}`);
};
"#;
    let indexer = FallbackIndexer::new(FallbackLanguage::TypeScript);
    let symbols = indexer.extract_symbols(content).unwrap();
    assert!(symbols.len() >= 4);
    assert!(symbols.iter().any(|s| s.name == "User"));
    assert!(symbols.iter().any(|s| s.name == "UserImpl"));
    assert!(symbols.iter().any(|s| s.name == "createUser"));
    assert!(symbols.iter().any(|s| s.name == "greetUser"));
}

#[test]
fn test_go_fallback() {
    let content = r#"
package main

type User struct {
    Name string
    Age  int
}

func (u *User) Greet() {
    fmt.Printf("Hello, I'm %s\n", u.Name)
}

func CreateUser(name string, age int) *User {
    return &User{Name: name, Age: age}
}
"#;
    let indexer = FallbackIndexer::new(FallbackLanguage::Go);
    let symbols = indexer.extract_symbols(content).unwrap();
    assert!(symbols.len() >= 3);
    assert!(symbols.iter().any(|s| s.name == "User"));
    assert!(symbols.iter().any(|s| s.name == "Greet"));
    assert!(symbols.iter().any(|s| s.name == "CreateUser"));
}

#[test]
fn fallback_symbols_exact() {
    let indexer = FallbackIndexer::new(FallbackLanguage::Rust);
    let symbols = indexer.extract_symbols("pub async fn fetch() {}\nimpl <T> Wrapper<T> {}\nlet x = 1;\n  enum E {}").unwrap();
    let got: Vec<(String, FallbackKind, u32, u32, u32)> =
        symbols.iter().map(|s| (s.name.clone(), s.kind, s.range.start.line, s.range.start.character, s.range.end.character)).collect();
    assert_eq!(
        got,
        vec![
            ("fetch".to_string(), FallbackKind::Function, 0, 0, 23),
            ("impl Wrapper".to_string(), FallbackKind::Class, 1, 0, 22),
            ("E".to_string(), FallbackKind::Enum, 3, 0, 11),
        ]
    );
    let py = FallbackIndexer::new(FallbackLanguage::Python).extract_symbols("class A:\n    def m(self):\n").unwrap();
    assert_eq!(py[1].kind, FallbackKind::Method);
    assert_eq!(py[1].range.start.character, 4);
    let js = FallbackIndexer::new(FallbackLanguage::JavaScript).extract_symbols("const f = async (x) => x\nlet y = 2").unwrap();
    assert_eq!(js[0].kind, FallbackKind::Function);
    assert_eq!(js[1].kind, FallbackKind::Variable);
    assert!(FallbackIndexer::new(FallbackLanguage::Go).extract_symbols("").unwrap().is_empty());
}

#[test]
fn fallback_language_from_extension() {
    assert!(FallbackIndexer::from_extension("src/main.rs").is_some());
    assert!(FallbackIndexer::from_extension("types.pyi").is_some());
    assert!(FallbackIndexer::from_extension("app.jsx").is_some());
    assert!(FallbackIndexer::from_extension("README").is_none());
    assert!(FallbackIndexer::from_extension("notes.txt").is_none());
    assert!(FallbackIndexer::from_extension(".rs").is_none());
}
