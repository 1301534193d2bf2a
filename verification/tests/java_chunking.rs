use probe::chunk::{ChunkType, LanguageProcessor};
use probe::languages::java::JavaProcessor;

fn text(v: &[u8]) -> String {
    String::from_utf8(v.to_vec()).unwrap()
}

fn indent_string(s: &str, indent: usize) -> String {
    s.lines()
        .map(|line| " ".repeat(indent) + line)
        .collect::<Vec<String>>()
        .join("\n")
}

#[test]
fn test_java_class_method_chunking() {
    let java_code = r#"package com.bla.foo;

import static com.bla.bar.Some.blablaCode;

/**
 * Long JavaDoc description
 */
class FooBar implements SomeInterface {
    void someMethod() {
        blablaCode();
    }

    String doSomething() {
        this.someMethod();
        return "text";
    }
}
"#;

    let mut processor = JavaProcessor::new().expect("Failed to create JavaProcessor");
    let chunks = processor
        .chunk_code(java_code)
        .expect("Failed to chunk Java code");

    assert_eq!(
        chunks.len(),
        3,
        "Should extract exactly 3 chunks (1 class + 2 methods) but got {}. Extracted chunks: {:?}",
        chunks.len(),
        chunks
            .iter()
            .map(|c| format!("{:?} - {}", c.chunk_type, text(&c.name)))
            .collect::<Vec<_>>()
    );

    let class_chunk = &chunks[0];
    assert_eq!(class_chunk.chunk_type, ChunkType::Class);
    assert_eq!(text(&class_chunk.name), "FooBar");

    let first_chunk = &chunks[1];
    assert_eq!(first_chunk.chunk_type, ChunkType::Method);
    assert_eq!(text(&first_chunk.name), "someMethod");

    let second_chunk = &chunks[2];
    assert_eq!(second_chunk.chunk_type, ChunkType::Method);
    assert_eq!(text(&second_chunk.name), "doSomething");

    let expected_first_declaration = "/**\n * Long JavaDoc description\n */\nclass FooBar implements SomeInterface {\n    void someMethod() {\n";

    let expected_first_content = "        blablaCode();\n    }";

    let expected_second_declaration = "/**\n * Long JavaDoc description\n */\nclass FooBar implements SomeInterface {\n    String doSomething() {\n";

    let expected_second_content = "        this.someMethod();\n        return \"text\";\n    }";

    assert_eq!(
        text(&first_chunk.declaration).trim(),
        expected_first_declaration.trim(),
        "First chunk declaration should match expected structure"
    );

    assert_eq!(
        text(&first_chunk.content).trim(),
        expected_first_content.trim(),
        "First chunk content should match expected structure"
    );

    assert_eq!(
        text(&second_chunk.declaration).trim(),
        expected_second_declaration.trim(),
        "Second chunk declaration should match expected structure"
    );

    assert_eq!(
        text(&second_chunk.content).trim(),
        expected_second_content.trim(),
        "Second chunk content should match expected structure"
    );
}

#[test]
fn test_java_multiline_declarations_chunking() {
    let java_code = "package com.example.multiline;\n\n/**\n * Multiline JavaDoc\n */\nclass MultiLineClass\n    implements InterfaceOne,\n               InterfaceTwo,\n               InterfaceThree {\n    public void veryLongMethod(\n        int firstParameter,\n        String secondParameter,\n        List<String> thirdParameter,\n        Map<String, Integer> fourthParameter\n    ) {\n        // method body\n        System.out.println(firstParameter);\n    }\n\n    String anotherMethod(\n        String a,\n        String b\n    ) {\n        return a + b;\n    }\n}\n";

    let mut processor = JavaProcessor::new().expect("Failed to create JavaProcessor");
    let chunks = processor
        .chunk_code(java_code)
        .expect("Failed to chunk Java code");

    assert_eq!(
        chunks.len(),
        3,
        "Should extract exactly 3 chunks (1 class + 2 methods) but got {}. Extracted chunks: {:?}",
        chunks.len(),
        chunks
            .iter()
            .map(|c| format!("{:?} - {}", c.chunk_type, text(&c.name)))
            .collect::<Vec<_>>()
    );

    let class_chunk = &chunks[0];
    assert_eq!(class_chunk.chunk_type, ChunkType::Class);
    assert_eq!(text(&class_chunk.name), "MultiLineClass");

    let first_chunk = &chunks[1];
    assert_eq!(first_chunk.chunk_type, ChunkType::Method);
    assert_eq!(text(&first_chunk.name), "veryLongMethod");

    let second_chunk = &chunks[2];
    assert_eq!(second_chunk.chunk_type, ChunkType::Method);
    assert_eq!(text(&second_chunk.name), "anotherMethod");

    let expected_first_declaration = "/**\n * Multiline JavaDoc\n */\nclass MultiLineClass\n    implements InterfaceOne,\n               InterfaceTwo,\n               InterfaceThree {\n    public void veryLongMethod(\n        int firstParameter,\n        String secondParameter,\n        List<String> thirdParameter,\n        Map<String, Integer> fourthParameter\n    ) {\n";

    let expected_first_content = indent_string(
        "    // method body\n    System.out.println(firstParameter);\n}",
        4,
    );

    let expected_second_declaration = "/**\n * Multiline JavaDoc\n */\nclass MultiLineClass\n    implements InterfaceOne,\n               InterfaceTwo,\n               InterfaceThree {\n    String anotherMethod(\n        String a,\n        String b\n    ) {\n";

    let expected_second_content = indent_string("    return a + b;\n}", 4);

    assert_eq!(
        text(&first_chunk.declaration).trim(),
        expected_first_declaration.trim(),
        "First chunk declaration should match expected structure"
    );

    assert_eq!(
        text(&first_chunk.content).trim(),
        expected_first_content.trim(),
        "First chunk content should match expected structure"
    );

    assert_eq!(
        text(&second_chunk.declaration).trim(),
        expected_second_declaration.trim(),
        "Second chunk declaration should match expected structure"
    );

    assert_eq!(
        text(&second_chunk.content).trim(),
        expected_second_content.trim(),
        "Second chunk content should match expected structure"
    );
}

#[test]
fn test_java_class_declaration_chunking() {
    let java_code = "package com.example.model;\n\n/**\n * User entity class\n * Represents a user in the system\n */\npublic class User {\n    /** User's unique identifier */\n    private String id;\n    \n    private String username;\n    \n    /** User's email address */\n    private String email = \"default@example.com\";\n    \n    public User(String id, String username, String email) {\n        this.id = id;\n        this.username = username;\n        this.email = email;\n    }\n    \n    public String getId() { return id; }\n    public void setId(String id) { this.id = id; }\n}\n";

    let mut processor = JavaProcessor::new().expect("Failed to create JavaProcessor");
    let chunks = processor
        .chunk_code(java_code)
        .expect("Failed to chunk Java code");

    assert_eq!(
        chunks.len(),
        4,
        "Should extract exactly 4 chunks (1 class + 3 methods) but got {}. Extracted chunks: {:?}",
        chunks.len(),
        chunks
            .iter()
            .map(|c| format!("{:?} - {}", c.chunk_type, text(&c.name)))
            .collect::<Vec<_>>()
    );

    let class_chunk = &chunks[0];
    assert_eq!(class_chunk.chunk_type, ChunkType::Class);
    assert_eq!(text(&class_chunk.name), "User");

    assert!(
        text(&class_chunk.declaration).contains("User entity class"),
        "Class declaration should include class javadoc"
    );
    assert!(
        text(&class_chunk.declaration).contains("public class User {"),
        "Class declaration should include class header"
    );

    assert!(
        text(&class_chunk.content).contains("User's unique identifier"),
        "Class content should include field javadoc"
    );
    assert!(
        text(&class_chunk.content).contains("private String id;"),
        "Class content should include field declarations"
    );
    assert!(
        text(&class_chunk.content).contains("User's email address"),
        "Class content should include field javadoc for email"
    );
    assert!(
        text(&class_chunk.content).contains("default@example.com"),
        "Class content should include field initializers"
    );

    assert_eq!(chunks[1].chunk_type, ChunkType::Method);
    assert_eq!(text(&chunks[1].name), "User");
    assert_eq!(chunks[2].chunk_type, ChunkType::Method);
    assert_eq!(text(&chunks[2].name), "getId");
    assert_eq!(chunks[3].chunk_type, ChunkType::Method);
    assert_eq!(text(&chunks[3].name), "setId");
}

#[test]
fn test_java_nested_class_declaration_chunking() {
    let java_code = "package com.example;\n\n/**\n * Outer class\n */\npublic class OuterClass {\n    private String outerField;\n    \n    /**\n     * Inner class\n     */\n    public static class InnerClass {\n        /** Inner field */\n        private int innerField;\n        \n        public void innerMethod() {\n            System.out.println(\"Inner\");\n        }\n    }\n    \n    public void outerMethod() {\n        System.out.println(\"Outer\");\n    }\n}\n";

    let mut processor = JavaProcessor::new().expect("Failed to create JavaProcessor");
    let chunks = processor
        .chunk_code(java_code)
        .expect("Failed to chunk Java code");

    assert_eq!(
        chunks.len(),
        4,
        "Should extract exactly 4 chunks but got {}. Extracted chunks: {:?}",
        chunks.len(),
        chunks
            .iter()
            .map(|c| format!("{:?} - {}", c.chunk_type, text(&c.name)))
            .collect::<Vec<_>>()
    );

    let outer_class_chunk = &chunks[0];
    assert_eq!(outer_class_chunk.chunk_type, ChunkType::Class);
    assert_eq!(text(&outer_class_chunk.name), "OuterClass");
    assert!(
        text(&outer_class_chunk.content).contains("private String outerField"),
        "Outer class content should include its field"
    );

    let inner_class_chunk = &chunks[1];
    assert_eq!(inner_class_chunk.chunk_type, ChunkType::Class);
    assert_eq!(text(&inner_class_chunk.name), "InnerClass");

    assert!(
        text(&inner_class_chunk.declaration).contains("public class OuterClass {"),
        "Inner class declaration should include compact outer class"
    );
    assert!(
        text(&inner_class_chunk.declaration).contains("Inner class"),
        "Inner class declaration should include its own javadoc"
    );

    assert!(
        text(&inner_class_chunk.content).contains("Inner field"),
        "Inner class content should include field javadoc"
    );
    assert!(
        text(&inner_class_chunk.content).contains("private int innerField"),
        "Inner class content should include its field"
    );

    let inner_method = &chunks[2];
    assert_eq!(inner_method.chunk_type, ChunkType::Method);
    assert_eq!(text(&inner_method.name), "innerMethod");

    let outer_method = &chunks[3];
    assert_eq!(outer_method.chunk_type, ChunkType::Method);
    assert_eq!(text(&outer_method.name), "outerMethod");
}

#[test]
fn test_java_interface_declaration_chunking() {
    let java_code = "package com.example.service;\n\n/**\n * Service interface for user operations\n */\npublic interface UserService {\n    \n    /**\n     * Retrieves a user by their ID\n     * @param userId the unique identifier for the user\n     * @return the user object if found, null otherwise\n     */\n    User getUserById(String userId);\n    \n    /**\n     * Creates a new user account\n     */\n    User createUser(String username, String email);\n}\n";

    let mut processor = JavaProcessor::new().expect("Failed to create JavaProcessor");
    let chunks = processor
        .chunk_code(java_code)
        .expect("Failed to chunk Java code");

    assert_eq!(
        chunks.len(),
        3,
        "Should extract exactly 3 chunks but got {}. Extracted chunks: {:?}",
        chunks.len(),
        chunks
            .iter()
            .map(|c| format!("{:?} - {}", c.chunk_type, text(&c.name)))
            .collect::<Vec<_>>()
    );

    let interface_chunk = &chunks[0];
    assert_eq!(interface_chunk.chunk_type, ChunkType::Class);
    assert_eq!(text(&interface_chunk.name), "UserService");

    assert!(
        text(&interface_chunk.declaration).contains("Service interface for user operations"),
        "Interface declaration should include interface javadoc"
    );
    assert!(
        text(&interface_chunk.declaration).contains("public interface UserService {"),
        "Interface declaration should include interface header"
    );

    assert_eq!(chunks[1].chunk_type, ChunkType::Method);
    assert_eq!(text(&chunks[1].name), "getUserById");
    assert_eq!(chunks[2].chunk_type, ChunkType::Method);
    assert_eq!(text(&chunks[2].name), "createUser");
}

#[test]
fn test_java_record_declaration_chunking() {
    let java_code = "package com.example.model;\n\nimport java.time.LocalDate;\n\n/**\n * A record representing a person with basic information\n */\npublic record Person(String name, int age, String email) {\n    \n    /**\n     * Creates a person with default values\n     */\n    public static Person withDefaults(String name) {\n        return new Person(name, 0, \"unknown@example.com\");\n    }\n    \n    /**\n     * Instance method to check if person is an adult\n     */\n    public boolean isAdult() {\n        return age >= 18;\n    }\n}\n";

    let mut processor = JavaProcessor::new().expect("Failed to create JavaProcessor");
    let chunks = processor
        .chunk_code(java_code)
        .expect("Failed to chunk Java code");

    assert_eq!(
        chunks.len(),
        3,
        "Should extract exactly 3 chunks (1 record + 2 methods) but got {}. Extracted chunks: {:?}",
        chunks.len(),
        chunks
            .iter()
            .map(|c| format!("{:?} - {}", c.chunk_type, text(&c.name)))
            .collect::<Vec<_>>()
    );

    let record_chunk = &chunks[0];
    assert_eq!(record_chunk.chunk_type, ChunkType::Class);
    assert_eq!(text(&record_chunk.name), "Person");

    assert!(
        text(&record_chunk.declaration).contains("A record representing a person"),
        "Record declaration should include record javadoc"
    );
    assert!(
        text(&record_chunk.declaration)
            .contains("public record Person(String name, int age, String email) {"),
        "Record declaration should include record header with all parameters"
    );

    assert_eq!(chunks[1].chunk_type, ChunkType::Method);
    assert_eq!(text(&chunks[1].name), "withDefaults");
    assert_eq!(chunks[2].chunk_type, ChunkType::Method);
    assert_eq!(text(&chunks[2].name), "isAdult");
}

#[test]
fn class_chunk_strips_direct_methods_and_keeps_fields() {
    let java_code = "class Box {\n    private int size;\n    void grow() {\n        size++;\n    }\n    private int pad;\n}\n";
    let mut processor = JavaProcessor::new().expect("Failed to create JavaProcessor");
    let chunks = processor
        .chunk_code(java_code)
        .expect("Failed to chunk Java code");
    assert_eq!(chunks.len(), 2);
    let class_chunk = &chunks[0];
    assert_eq!(class_chunk.chunk_type, ChunkType::Class);
    assert_eq!(text(&class_chunk.declaration), "class Box {");
    // The method's span is cut out; fields and the closing brace stay.
    assert_eq!(
        text(&class_chunk.content),
        "\n    private int size;\n    \n    private int pad;\n}"
    );
    let method = &chunks[1];
    assert_eq!(text(&method.declaration), "class Box {\n    void grow() {");
    assert_eq!(text(&method.content), "\n        size++;\n    }");
}
