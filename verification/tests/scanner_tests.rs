use dump_parser::Statement;
use dump_parser::list_statements;

#[test]
fn check_list_sql_statements() {
    let s = list_statements(
        "INSERT INTO public.toto (first_name, last_name) VALUES ('john', 'doe');".as_bytes(),
    );
    assert_eq!(s.len(), 1);

    match s.get(0).unwrap() {
        Statement::NewLine => {
            assert!(false);
        }
        Statement::CommentLine(_) => {
            assert!(false);
        }
        Statement::Query(s) => {
            assert!(s.valid);
        }
    }

    let s = list_statements(
        "INSERT INTO public.toto (first_name, last_name) VALUES ('jo)hn', 'd(oe');".as_bytes(),
    );
    assert_eq!(s.len(), 1);

    match s.get(0).unwrap() {
        Statement::NewLine => {
            assert!(false);
        }
        Statement::CommentLine(_) => {
            assert!(false);
        }
        Statement::Query(s) => {
            assert!(s.valid);
        }
    }

    let s = list_statements(
        "INSERT INTO public.toto (first_name, last_name) VALUES ('john', 'doe'".as_bytes(),
    );
    assert_eq!(s.len(), 1);

    match s.get(0).unwrap() {
        Statement::NewLine => {
            assert!(false);
        }
        Statement::CommentLine(_) => {
            assert!(false);
        }
        Statement::Query(s) => {
            assert!(!s.valid);
        }
    }

    let s = list_statements(
        "INSERT INTO public.toto (first_name, last_name)\
                VALUES ('john', 'doe');"
            .as_bytes(),
    );
    assert_eq!(s.len(), 1);

    match s.get(0).unwrap() {
        Statement::NewLine => {
            assert!(false);
        }
        Statement::CommentLine(_) => {
            assert!(false);
        }
        Statement::Query(s) => {
            assert!(s.valid);
        }
    }

    let s = list_statements(
        "INSERT INTO public.toto (first_name, last_name) VALUES 'john', 'doe');".as_bytes(),
    );
    assert_eq!(s.len(), 1);

    match s.get(0).unwrap() {
        Statement::NewLine => {
            assert!(false);
        }
        Statement::CommentLine(_) => {
            assert!(false);
        }
        Statement::Query(s) => {
            assert!(!s.valid);
        }
    }

    let s = list_statements(
        "INSERT INTO public.toto (first_name, last_name) VALUES ('jo''hn', 'doe');".as_bytes(),
    );
    assert_eq!(s.len(), 1);

    match s.get(0).unwrap() {
        Statement::NewLine => {
            assert!(false);
        }
        Statement::CommentLine(_) => {
            assert!(false);
        }
        Statement::Query(s) => {
            assert!(s.valid);
        }
    }

    let s = list_statements(
        "INSERT INTO public.toto (first_name, last_name) VALUES ('jo''hn', 'doe';".as_bytes(),
    );
    assert_eq!(s.len(), 1);

    match s.get(0).unwrap() {
        Statement::NewLine => {
            assert!(false);
        }
        Statement::CommentLine(_) => {
            assert!(false);
        }
        Statement::Query(s) => {
            assert!(!s.valid);
        }
    }

    let s = list_statements(
        "INSERT INTO public.toto (first_name, last_name) VALUES\
                ('jo''hn', 'doe');"
            .as_bytes(),
    );
    assert_eq!(s.len(), 1);

    match s.get(0).unwrap() {
        Statement::NewLine => {
            assert!(false);
        }
        Statement::CommentLine(_) => {
            assert!(false);
        }
        Statement::Query(s) => {
            assert!(s.valid);
        }
    }

    let s = list_statements(
        "INSERT INTO public.toto (first_name, last_name, description) VALUES\
                ('jo''hn', 'doe', 'wadawdw'';awdawd; awd;awdawdaw rm -rf ;dawd;');"
            .as_bytes(),
    );
    assert_eq!(s.len(), 1);

    match s.get(0).unwrap() {
        Statement::NewLine => {
            assert!(false);
        }
        Statement::CommentLine(_) => {
            assert!(false);
        }
        Statement::Query(s) => {
            assert!(s.valid);
        }
    }

    let s = list_statements(
        r#"
--
-- PostgreSQL database dump
--

-- Dumped from database version 12.7
-- Dumped by pg_dump version 14.1

SET statement_timeout = 0;
SET lock_timeout = 0;
SET idle_in_transaction_session_timeout = 0;
SET client_encoding = 'UTF8';
SET standard_conforming_strings = on;
SELECT pg_catalog.set_config('search_path', '', false);
SET check_function_bodies = false;
SET xmloption = content;
SET client_min_messages = warning;
SET row_security = off;

--
-- Name: uuid-ossp; Type: EXTENSION; Schema: -; Owner: -
--

CREATE EXTENSION IF NOT EXISTS "uuid-ossp" WITH SCHEMA public;


--
-- Name: EXTENSION "uuid-ossp"; Type: COMMENT; Schema: -; Owner:
--

COMMENT ON EXTENSION "uuid-ossp" IS 'generate universally unique identifiers (UUIDs)';


SET default_tablespace = '';

SET default_table_access_method = heap;

--
-- Name: toto; Type: TABLE; Schema: public; Owner: admin
--

CREATE TABLE public.toto (
    id uuid DEFAULT uuid_generate_v4() NOT NULL, -- hello world
    created_at timestamp DEFAULT now() NOT NULL
);

--
-- Name: toto; Type: TABLE; Schema: public; Owner: admin
--

CREATE TABLE public.toto2 (
    id uuid DEFAULT uuid_generate_v4() NOT NULL, -- hello world
    created_at timestamp DEFAULT now() NOT NULL
);

"#
        .as_bytes(),
    );

    let mut new_lines = 0usize;
    let mut comments = 0usize;
    let mut sql = vec![];

    for x in s {
        match x {
            Statement::NewLine => {
                new_lines += 1;
            }
            Statement::CommentLine(_) => {
                comments += 1;
            }
            Statement::Query(s) => {
                assert!(s.valid);
                sql.push(s);
            }
        }
    }

    assert_eq!(new_lines, 33);
    assert_eq!(comments, 17);
    assert_eq!(sql.len(), 16);

    // even if it's not a valid query, the syntax is valid
    let s = list_statements("INSERT INTO public.toto;".as_bytes());
    assert_eq!(s.len(), 1);

    match s.get(0).unwrap() {
        Statement::NewLine => {
            assert!(false);
        }
        Statement::CommentLine(_) => {
            assert!(false);
        }
        Statement::Query(s) => {
            assert!(s.valid);
        }
    }
}

#[test]
fn check_multiple_sql_statements() {
    let s = list_statements("INSERT INTO (first_name, last_name) VALUES ('john', 'doe');SELECT * FROM toto;INSERT INTO (first_name, last_name, age) VALUES ('john', 'doe', 18)".as_bytes());
    assert_eq!(s.len(), 3);

    match s.get(0).unwrap() {
        Statement::NewLine => {
            assert!(false);
        }
        Statement::CommentLine(_) => {
            assert!(false);
        }
        Statement::Query(s) => {
            assert!(s.valid);
        }
    }

    match s.get(1).unwrap() {
        Statement::NewLine => {
            assert!(false);
        }
        Statement::CommentLine(_) => {
            assert!(false);
        }
        Statement::Query(s) => {
            assert!(s.valid);
        }
    }

    match s.get(2).unwrap() {
        Statement::NewLine => {
            assert!(false);
        }
        Statement::CommentLine(_) => {
            assert!(false);
        }
        Statement::Query(s) => {
            assert!(s.valid);
        }
    }

    let s = list_statements("INSERT INTO (first_name, last_name) VALUES ('john', 'doe');SELECT * FROM toto;INSERT INTO (first_name, last_name, age) VALUES ('john', 'doe', 18);".as_bytes());
    assert_eq!(s.len(), 3);

    match s.get(0).unwrap() {
        Statement::NewLine => {
            assert!(false);
        }
        Statement::CommentLine(_) => {
            assert!(false);
        }
        Statement::Query(s) => {
            assert!(s.valid);
        }
    }

    match s.get(1).unwrap() {
        Statement::NewLine => {
            assert!(false);
        }
        Statement::CommentLine(_) => {
            assert!(false);
        }
        Statement::Query(s) => {
            assert!(s.valid);
        }
    }

    match s.get(2).unwrap() {
        Statement::NewLine => {
            assert!(false);
        }
        Statement::CommentLine(_) => {
            assert!(false);
        }
        Statement::Query(s) => {
            assert!(s.valid);
        }
    }

    let s = list_statements("INSERT INTO \n(first_name, last_name) VALUES ('jo\nhn', 'doe');SELECT * FROM toto\n\n;INSERT INTO (first_name, last_name, age) VAL\nUES ('john', 'doe', 18)\n\n\n\n;".as_bytes());
    assert_eq!(s.len(), 6);

    match s.get(0).unwrap() {
        Statement::NewLine => {}
        Statement::CommentLine(_) => {
            assert!(false);
        }
        Statement::Query(s) => {
            assert!(s.valid);
        }
    }

    match s.get(1).unwrap() {
        Statement::NewLine => {
            assert!(false);
        }
        Statement::CommentLine(_) => {
            assert!(false);
        }
        Statement::Query(s) => {
            assert!(s.valid);
        }
    }

    match s.get(2).unwrap() {
        Statement::NewLine => {}
        Statement::CommentLine(_) => {
            assert!(false);
        }
        Statement::Query(s) => {
            assert!(s.valid);
        }
    }

    let s = list_statements("INSERT INTO \n(first_name, last_name VALUES ('jo\nhn', 'do''e');SELECT * FROM toto\n\n;INSERT INTO (first_name, last_name, age) VAL\nUES ('jo''hn', 'doe', 18)\n\n\n\n;".as_bytes());
    assert_eq!(s.len(), 6);

    match s.get(0).unwrap() {
        Statement::NewLine => {}
        Statement::CommentLine(_) => {
            assert!(false);
        }
        Statement::Query(s) => {
            assert!(!s.valid);
        }
    }

    match s.get(1).unwrap() {
        Statement::NewLine => {
            assert!(false);
        }
        Statement::CommentLine(_) => {
            assert!(false);
        }
        Statement::Query(s) => {
            assert!(!s.valid);
        }
    }

    match s.get(2).unwrap() {
        Statement::NewLine => {}
        Statement::CommentLine(_) => {
            assert!(false);
        }
        Statement::Query(s) => {
            assert!(s.valid);
        }
    }
}
